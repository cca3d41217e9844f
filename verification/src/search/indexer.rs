//! What is searched: the schema of the full-text index and its documents.
use crate::bytes::IndexError;
use crate::cells::ancestor;
use crate::geometry::{answers_edges_once, NodeCoord, Position};
use crate::search::admin::{
    answers_places_once, cache_gives, finds_admin, law_lookup_is_determined, AdminCache,
    AdminContext, ContextModel,
};
use crate::search::binary::{BinaryIndex, PlaceFeature};
use crate::search::engine::{
    add_document, add_number, add_number_field, add_stored_number_field, add_stored_whole_field,
    add_stored_words_field, add_text, add_words_field, build, builder_fields, commit, create_in_ram,
    doc_values, handed_in, has_field, index_docs, index_fields, is_broken, is_field_name, new_doc,
    open_writer, schema_builder, schema_fields, to_ordered, writer_fields, DocValue, FieldModel,
    FieldShape, Writer,
};
use crate::search::targets::{
    all_valid, answers_degrees_once, answers_features_once, answers_merges_once,
    answers_middles_once, areas_listed, features_listed, law_area_list_is_determined,
    law_feature_list_is_determined, law_later_corners_do_not_place_areas,
    law_street_list_is_determined, list_areas, list_features, list_streets,
    same_but_for_later_corners, streets_listed, target_views, Target, TargetModel,
};
use crate::search::tokenizer::{normalize_turkish, normalized};
use crate::text::{join, joined, law_joining_goes_by_parts, present, push_present, views};
use tantivy::schema::Schema;
use tantivy::{TantivyDocument, TantivyError};
use vstd::multiset::Multiset;
use vstd::prelude::*;
use vstd::string::StringExecFns;

verus! {

// --- Schema ---

/// The schema, and the place of each of its fields.
pub struct SearchSchema {
    pub schema: Schema,
    pub f_name: u32,
    pub f_name_norm: u32,
    pub f_context: u32,
    pub f_display: u32,
    pub f_lat: u32,
    pub f_lon: u32,
    pub f_kind: u32,
    pub f_importance: u32,
}

/// The fields of the index.
pub open spec fn search_fields() -> Seq<FieldModel> {
    seq![
        FieldModel { name: "name"@, shape: FieldShape::Words { stored: true } },
        FieldModel { name: "name_norm"@, shape: FieldShape::Words { stored: false } },
        FieldModel { name: "context"@, shape: FieldShape::Words { stored: false } },
        FieldModel { name: "display"@, shape: FieldShape::Whole { stored: true } },
        FieldModel { name: "lat"@, shape: FieldShape::Number { stored: true } },
        FieldModel { name: "lon"@, shape: FieldShape::Number { stored: true } },
        FieldModel { name: "kind"@, shape: FieldShape::Whole { stored: true } },
        FieldModel { name: "importance"@, shape: FieldShape::Number { stored: false } },
    ]
}

impl SearchSchema {
    /// Whether the schema is the one of the index.
    pub open spec fn is_standard(&self) -> bool {
        &&& schema_fields(self.schema) == search_fields()
        &&& self.f_name == 0
        &&& self.f_name_norm == 1
        &&& self.f_context == 2
        &&& self.f_display == 3
        &&& self.f_lat == 4
        &&& self.f_lon == 5
        &&& self.f_kind == 6
        &&& self.f_importance == 7
    }
}

proof fn lemma_field_names()
    ensures
        forall|i: int, j: int|
            0 <= i < j < 8 ==> (#[trigger] search_fields()[i]).name
                != (#[trigger] search_fields()[j]).name,
        forall|i: int| 0 <= i < 8 ==> is_field_name((#[trigger] search_fields()[i]).name),
{
    reveal_strlit("name");
    reveal_strlit("name_norm");
    reveal_strlit("context");
    reveal_strlit("display");
    reveal_strlit("lat");
    reveal_strlit("lon");
    reveal_strlit("kind");
    reveal_strlit("importance");
    let fields = search_fields();
    assert(fields[0].name.len() == 4);
    assert(fields[1].name.len() == 9);
    assert(fields[2].name.len() == 7);
    assert(fields[3].name.len() == 7);
    assert(fields[4].name.len() == 3);
    assert(fields[5].name.len() == 3);
    assert(fields[6].name.len() == 4);
    assert(fields[7].name.len() == 10);
    assert(fields[0].name[0] != fields[6].name[0]);
    assert(fields[2].name[0] != fields[3].name[0]);
    assert(fields[4].name[1] != fields[5].name[1]);
    assert forall|i: int, j: int| 0 <= i < j < 8 implies (#[trigger] fields[i]).name
        != (#[trigger] fields[j]).name by {
        assert(i == 0 || i == 1 || i == 2 || i == 3 || i == 4 || i == 5 || i == 6);
        assert(j == 1 || j == 2 || j == 3 || j == 4 || j == 5 || j == 6 || j == 7);
    }
    assert forall|i: int| 0 <= i < 8 implies is_field_name((#[trigger] fields[i]).name) by {
        assert(i == 0 || i == 1 || i == 2 || i == 3 || i == 4 || i == 5 || i == 6 || i == 7);
    }
}

/// Builds the schema.
pub fn build_schema() -> (r: SearchSchema)
    ensures
        r.is_standard(),
{
    proof {
        lemma_field_names();
    }
    let ghost fields = search_fields();
    let mut b = schema_builder();
    assert(builder_fields(b) =~= fields.take(0));
    assert(!has_field(fields.take(0), fields[0].name));
    let f_name: u32 = add_stored_words_field(&mut b, "name");
    assert(builder_fields(b) =~= fields.take(1));
    assert(!has_field(fields.take(1), fields[1].name));
    let f_name_norm: u32 = add_words_field(&mut b, "name_norm");
    assert(builder_fields(b) =~= fields.take(2));
    assert(!has_field(fields.take(2), fields[2].name));
    let f_context: u32 = add_words_field(&mut b, "context");
    assert(builder_fields(b) =~= fields.take(3));
    assert(!has_field(fields.take(3), fields[3].name));
    let f_display: u32 = add_stored_whole_field(&mut b, "display");
    assert(builder_fields(b) =~= fields.take(4));
    assert(!has_field(fields.take(4), fields[4].name));
    let f_lat: u32 = add_stored_number_field(&mut b, "lat");
    assert(builder_fields(b) =~= fields.take(5));
    assert(!has_field(fields.take(5), fields[5].name));
    let f_lon: u32 = add_stored_number_field(&mut b, "lon");
    assert(builder_fields(b) =~= fields.take(6));
    assert(!has_field(fields.take(6), fields[6].name));
    let f_kind: u32 = add_stored_whole_field(&mut b, "kind");
    assert(builder_fields(b) =~= fields.take(7));
    assert(!has_field(fields.take(7), fields[7].name));
    let f_importance: u32 = add_number_field(&mut b, "importance");
    assert(builder_fields(b) =~= fields);
    SearchSchema {
        schema: build(b),
        f_name,
        f_name_norm,
        f_context,
        f_display,
        f_lat,
        f_lon,
        f_kind,
        f_importance,
    }
}

// --- Documents ---

/// What is said of a place.
pub struct SearchDoc {
    pub name: String,
    pub display: String,
    /// The double-precision pattern of the latitude.
    pub lat: u64,
    /// The double-precision pattern of the longitude.
    pub lon: u64,
    pub kind: &'static str,
    pub context: String,
    /// The double-precision pattern of the weight.
    pub importance: u64,
}

/// What is said of a place, as characters.
#[verifier::ext_equal]
pub struct DocModel {
    pub name: Seq<char>,
    pub display: Seq<char>,
    pub lat: u64,
    pub lon: u64,
    pub kind: Seq<char>,
    pub context: Seq<char>,
    pub importance: u64,
}

impl View for SearchDoc {
    type V = DocModel;

    open spec fn view(&self) -> DocModel {
        DocModel {
            name: self.name@,
            display: self.display@,
            lat: self.lat,
            lon: self.lon,
            kind: self.kind@,
            context: self.context@,
            importance: self.importance,
        }
    }
}

/// The values of the document for a place: its name and context stand in it as
/// searches compare them.
pub open spec fn place_values(ss: SearchSchema, d: DocModel) -> Seq<(u32, DocValue)> {
    seq![
        (ss.f_name, DocValue::Text(normalized(d.name))),
        (ss.f_name_norm, DocValue::Text(normalized(d.name))),
        (ss.f_context, DocValue::Text(normalized(d.context))),
        (ss.f_display, DocValue::Text(d.display)),
        (ss.f_lat, DocValue::Number(d.lat)),
        (ss.f_lon, DocValue::Number(d.lon)),
        (ss.f_kind, DocValue::Text(d.kind)),
        (ss.f_importance, DocValue::Number(d.importance)),
    ]
}

/// Makes the document for a place.
pub fn make_doc(ss: &SearchSchema, d: &SearchDoc) -> (r: TantivyDocument)
    ensures
        doc_values(r) == place_values(*ss, d@),
{
    let name_norm = normalize_turkish(d.name.as_str());
    let context_norm = normalize_turkish(d.context.as_str());
    let mut doc = new_doc();
    add_text(&mut doc, ss.f_name, name_norm.as_str());
    add_text(&mut doc, ss.f_name_norm, name_norm.as_str());
    add_text(&mut doc, ss.f_context, context_norm.as_str());
    add_text(&mut doc, ss.f_display, d.display.as_str());
    add_number(&mut doc, ss.f_lat, to_ordered(d.lat));
    add_number(&mut doc, ss.f_lon, to_ordered(d.lon));
    add_text(&mut doc, ss.f_kind, d.kind);
    add_number(&mut doc, ss.f_importance, to_ordered(d.importance));
    assert(doc_values(doc) =~= place_values(*ss, d@));
    doc
}

// --- From a place to its document ---

/// The names of the areas round an area of a level, from the smallest to the
/// largest.
pub open spec fn areas_above(level: u8, ctx: ContextModel) -> Seq<Seq<char>> {
    if level == 9 || level == 10 {
        present(ctx.city) + present(ctx.county) + present(ctx.state) + present(ctx.country)
    } else if level == 8 {
        present(ctx.county) + present(ctx.state) + present(ctx.country)
    } else if level == 6 {
        present(ctx.state) + present(ctx.country)
    } else if level == 4 {
        present(ctx.country)
    } else {
        seq![]
    }
}

/// What stands behind the name of an area of a level.
pub fn admin_display_suffix(level: u8, ctx: &AdminContext) -> (r: String)
    ensures
        r@ == joined(areas_above(level, ctx@), ", "@),
{
    let mut parts: Vec<&str> = Vec::new();
    assert(views(parts@) =~= seq![]);
    if level == 9 || level == 10 {
        push_present(&mut parts, &ctx.city);
    }
    if level == 8 || level == 9 || level == 10 {
        push_present(&mut parts, &ctx.county);
    }
    if level == 6 || level == 8 || level == 9 || level == 10 {
        push_present(&mut parts, &ctx.state);
    }
    if level == 4 || level == 6 || level == 8 || level == 9 || level == 10 {
        push_present(&mut parts, &ctx.country);
    }
    assert(views(parts@) =~= areas_above(level, ctx@));
    join(&parts, ", ")
}

/// What stands behind the name of a place.
pub open spec fn display_suffix_of(level: Option<u8>, ctx: ContextModel) -> Seq<char> {
    match level {
        Some(level) => joined(areas_above(level, ctx), ", "@),
        None => joined(ctx.names(), ", "@),
    }
}

/// What is said of a place in a context: it is shown by its name and the areas
/// round it; it is found by the areas, and an area also by its own name.
pub open spec fn doc_of(t: TargetModel, ctx: ContextModel) -> DocModel {
    let suffix = display_suffix_of(t.level, ctx);
    DocModel {
        name: t.name,
        display: if suffix.len() == 0 {
            t.name
        } else {
            t.name + ", "@ + suffix
        },
        lat: t.at.lat,
        lon: t.at.lng,
        kind: t.kind,
        context: if t.level is Some {
            t.name + " "@ + joined(ctx.names(), " "@)
        } else {
            joined(ctx.names(), " "@)
        },
        importance: t.importance,
    }
}

/// What is shown of a place starts with its name.
pub proof fn law_display_starts_with_name(t: TargetModel, ctx: ContextModel)
    ensures
        t.name.is_prefix_of(doc_of(t, ctx).display),
{
    let display = doc_of(t, ctx).display;
    assert(display.take(t.name.len() as int) =~= t.name);
}

/// Puts together what is said of a place.
pub fn describe(t: &Target, ctx: &AdminContext) -> (r: SearchDoc)
    ensures
        r@ == doc_of(t@, ctx@),
{
    let suffix = match t.level {
        Some(level) => admin_display_suffix(level, ctx),
        None => ctx.display_suffix(),
    };
    let mut display = t.name.to_string();
    if !suffix.as_str().is_empty() {
        display.append(", ");
        display.append(suffix.as_str());
    }
    let tokens = ctx.context_tokens();
    let context = if t.level.is_some() {
        let mut context = t.name.to_string();
        context.append(" ");
        context.append(tokens.as_str());
        context
    } else {
        tokens
    };
    let doc = SearchDoc {
        name: t.name.to_string(),
        display,
        lat: t.at.lat,
        lon: t.at.lng,
        kind: t.kind,
        context,
        importance: t.importance,
    };
    assert(doc@ =~= doc_of(t@, ctx@));
    doc
}

/// What is said of the places of a list.
pub open spec fn doc_views(docs: Seq<SearchDoc>) -> Seq<DocModel> {
    docs.map_values(|d: SearchDoc| d@)
}

/// The outcome of putting documents together.
pub open spec fn doc_result(r: Result<Vec<SearchDoc>, IndexError>) -> Option<Seq<DocModel>> {
    match r {
        Ok(v) => Some(doc_views(v@)),
        Err(_) => None,
    }
}

/// The places in turn are looked up in the cache: it goes from one state to
/// the next in `caches` and gives each place its context in `contexts`.
pub open spec fn looked_up<
    F: Fn(Position, NodeCoord, NodeCoord) -> bool,
    D: Fn(Position, PlaceFeature) -> u64,
>(
    idx: BinaryIndex,
    crosses: F,
    distance: D,
    targets: Seq<TargetModel>,
    caches: Seq<Map<u64, ContextModel>>,
    contexts: Seq<ContextModel>,
) -> bool {
    &&& caches.len() == contexts.len() + 1
    &&& contexts.len() <= targets.len()
    &&& forall|k: int|
        0 <= k < contexts.len() ==> cache_gives(
            idx,
            targets[k].at,
            crosses,
            distance,
            caches[k],
            caches[k + 1],
            Some(#[trigger] contexts[k]),
        )
}

/// What is said of the places in their contexts.
pub open spec fn docs_of(targets: Seq<TargetModel>, contexts: Seq<ContextModel>) -> Seq<DocModel> {
    Seq::new(contexts.len(), |k: int| doc_of(targets[k], contexts[k]))
}

/// How describing the places ends, once some have their contexts: with all of
/// them described, or at one whose context cannot be found.
pub open spec fn ends_as<
    F: Fn(Position, NodeCoord, NodeCoord) -> bool,
    D: Fn(Position, PlaceFeature) -> u64,
>(
    idx: BinaryIndex,
    crosses: F,
    distance: D,
    targets: Seq<TargetModel>,
    contexts: Seq<ContextModel>,
    after: Map<u64, ContextModel>,
    r: Option<Seq<DocModel>>,
) -> bool {
    match r {
        Some(docs) => contexts.len() == targets.len() && docs == docs_of(targets, contexts),
        None => contexts.len() < targets.len() && cache_gives(
            idx,
            targets[contexts.len() as int].at,
            crosses,
            distance,
            after,
            after,
            None,
        ),
    }
}

/// Describing the places turns the cache from `before` into `after` and gives
/// `r`: what is said of each place in its context. Nothing once the context of
/// a place cannot be found.
pub open spec fn described<
    F: Fn(Position, NodeCoord, NodeCoord) -> bool,
    D: Fn(Position, PlaceFeature) -> u64,
>(
    idx: BinaryIndex,
    crosses: F,
    distance: D,
    targets: Seq<TargetModel>,
    before: Map<u64, ContextModel>,
    after: Map<u64, ContextModel>,
    r: Option<Seq<DocModel>>,
) -> bool {
    exists|caches: Seq<Map<u64, ContextModel>>, contexts: Seq<ContextModel>| #[trigger]
        looked_up(idx, crosses, distance, targets, caches, contexts) && caches[0] == before
            && caches.last() == after && ends_as(
            idx,
            crosses,
            distance,
            targets,
            contexts,
            after,
            r,
        )
}

/// Describes the places of a list in turn.
pub fn describe_all<
    F: Fn(Position, NodeCoord, NodeCoord) -> bool,
    D: Fn(Position, PlaceFeature) -> u64,
>(
    idx: &BinaryIndex,
    cache: &mut AdminCache,
    targets: &Vec<Target>,
    crosses: &F,
    distance: &D,
) -> (r: Result<Vec<SearchDoc>, IndexError>)
    requires
        all_valid(target_views(targets@)),
        forall|q: Position, a: NodeCoord, b: NodeCoord| call_requires(*crosses, (q, a, b)),
        forall|q: Position, f: PlaceFeature| call_requires(*distance, (q, f)),
    ensures
        described(
            *idx,
            *crosses,
            *distance,
            target_views(targets@),
            old(cache)@,
            final(cache)@,
            doc_result(r),
        ),
        r is Err ==> r->Err_0 == IndexError::OutOfRange,
{
    let ghost models = target_views(targets@);
    let ghost mut caches: Seq<Map<u64, ContextModel>> = seq![cache@];
    let ghost mut contexts: Seq<ContextModel> = seq![];
    let mut docs: Vec<SearchDoc> = Vec::new();
    assert(doc_views(docs@) =~= docs_of(models, contexts));
    let mut k: usize = 0;
    while k < targets.len()
        invariant
            forall|q: Position, a: NodeCoord, b: NodeCoord| call_requires(*crosses, (q, a, b)),
            forall|q: Position, f: PlaceFeature| call_requires(*distance, (q, f)),
            models == target_views(targets@),
            all_valid(models),
            k <= targets@.len(),
            contexts.len() == k,
            looked_up(*idx, *crosses, *distance, models, caches, contexts),
            caches[0] == old(cache)@,
            caches.last() == cache@,
            doc_views(docs@) == docs_of(models, contexts),
        decreases targets@.len() - k,
    {
        assert(models[k as int].at == targets@[k as int].at);
        let ghost before = cache@;
        match cache.get(targets[k].at, idx, crosses, distance) {
            Ok(ctx) => {
                let doc = describe(&targets[k], &ctx);
                let ghost docs_were = docs@;
                docs.push(doc);
                proof {
                    let caches_were = caches;
                    let contexts_were = contexts;
                    caches = caches.push(cache@);
                    contexts = contexts.push(ctx@);
                    assert forall|i: int| 0 <= i < contexts.len() implies cache_gives(
                        *idx,
                        models[i].at,
                        *crosses,
                        *distance,
                        caches[i],
                        caches[i + 1],
                        Some(#[trigger] contexts[i]),
                    ) by {
                        if i < k {
                            assert(contexts[i] == contexts_were[i]);
                        } else {
                            assert(caches[i] == before);
                        }
                    }
                    assert(doc_views(docs@) =~= doc_views(docs_were).push(doc@));
                    assert(docs_of(models, contexts) =~= docs_of(models, contexts_were).push(
                        doc_of(models[k as int], ctx@),
                    ));
                }
            },
            Err(e) => {
                assert(cache@ == before);
                return Err(e);
            },
        }
        k = k + 1;
    }
    Ok(docs)
}

// --- The three sorts of places ---

/// Describing a listing turns the cache from `before` into `after` and gives
/// `r`; a listing that failed gives nothing and leaves the cache.
pub open spec fn listing_described<
    F: Fn(Position, NodeCoord, NodeCoord) -> bool,
    D: Fn(Position, PlaceFeature) -> u64,
>(
    idx: BinaryIndex,
    crosses: F,
    distance: D,
    listing: Option<Seq<TargetModel>>,
    before: Map<u64, ContextModel>,
    after: Map<u64, ContextModel>,
    r: Option<Seq<DocModel>>,
) -> bool {
    match listing {
        None => r is None && after == before,
        Some(targets) => described(idx, crosses, distance, targets, before, after, r),
    }
}

/// Indexing the areas turns the cache from `before` into `after` and gives `r`.
pub open spec fn areas_indexed<
    C: Fn(&Vec<NodeCoord>) -> Position,
    W: Fn(Position) -> (i16, i16),
    F: Fn(Position, NodeCoord, NodeCoord) -> bool,
    D: Fn(Position, PlaceFeature) -> u64,
>(
    idx: BinaryIndex,
    centroid: C,
    whole_degrees: W,
    crosses: F,
    distance: D,
    before: Map<u64, ContextModel>,
    after: Map<u64, ContextModel>,
    r: Option<Seq<DocModel>>,
) -> bool {
    exists|listing: Option<Seq<TargetModel>>| #[trigger]
        areas_listed(idx, centroid, whole_degrees, listing) && listing_described(
            idx,
            crosses,
            distance,
            listing,
            before,
            after,
            r,
        )
}

/// The documents of the areas.
pub fn index_admin_polygons<
    C: Fn(&Vec<NodeCoord>) -> Position,
    W: Fn(Position) -> (i16, i16),
    F: Fn(Position, NodeCoord, NodeCoord) -> bool,
    D: Fn(Position, PlaceFeature) -> u64,
>(
    idx: &BinaryIndex,
    cache: &mut AdminCache,
    centroid: &C,
    whole_degrees: &W,
    crosses: &F,
    distance: &D,
) -> (r: Result<Vec<SearchDoc>, IndexError>)
    requires
        forall|v: Vec<NodeCoord>| #[trigger] call_requires(*centroid, (&v,)),
        forall|v: Vec<NodeCoord>, p: Position| #[trigger]
            call_ensures(*centroid, (&v,), p) ==> p.is_valid(),
        forall|p: Position| call_requires(*whole_degrees, (p,)),
        forall|q: Position, a: NodeCoord, b: NodeCoord| call_requires(*crosses, (q, a, b)),
        forall|q: Position, f: PlaceFeature| call_requires(*distance, (q, f)),
    ensures
        areas_indexed(
            *idx,
            *centroid,
            *whole_degrees,
            *crosses,
            *distance,
            old(cache)@,
            final(cache)@,
            doc_result(r),
        ),
        r is Err ==> r->Err_0 == IndexError::OutOfRange,
{
    let targets = match list_areas(idx, centroid, whole_degrees) {
        Ok(targets) => targets,
        Err(e) => {
            assert(listing_described(*idx, *crosses, *distance, None, cache@, cache@, None));
            return Err(e);
        },
    };
    let ghost listing = Some(target_views(targets@));
    let ghost before = cache@;
    assert(areas_listed(*idx, *centroid, *whole_degrees, listing));
    let docs = describe_all(idx, cache, &targets, crosses, distance);
    assert(listing_described(
        *idx,
        *crosses,
        *distance,
        listing,
        before,
        cache@,
        doc_result(docs),
    ));
    docs
}

/// Indexing the named places turns the cache from `before` into `after` and gives `r`.
pub open spec fn features_indexed<
    A: Fn(PlaceFeature) -> Position,
    F: Fn(Position, NodeCoord, NodeCoord) -> bool,
    D: Fn(Position, PlaceFeature) -> u64,
>(
    idx: BinaryIndex,
    place_at: A,
    crosses: F,
    distance: D,
    before: Map<u64, ContextModel>,
    after: Map<u64, ContextModel>,
    r: Option<Seq<DocModel>>,
) -> bool {
    exists|listing: Option<Seq<TargetModel>>| #[trigger]
        features_listed(idx, place_at, listing) && listing_described(
            idx,
            crosses,
            distance,
            listing,
            before,
            after,
            r,
        )
}

/// The documents of the named places and points of interest.
pub fn index_place_features<
    A: Fn(PlaceFeature) -> Position,
    F: Fn(Position, NodeCoord, NodeCoord) -> bool,
    D: Fn(Position, PlaceFeature) -> u64,
>(
    idx: &BinaryIndex,
    cache: &mut AdminCache,
    place_at: &A,
    crosses: &F,
    distance: &D,
) -> (r: Result<Vec<SearchDoc>, IndexError>)
    requires
        forall|f: PlaceFeature| call_requires(*place_at, (f,)),
        forall|f: PlaceFeature, p: Position| #[trigger]
            call_ensures(*place_at, (f,), p) ==> p.is_valid(),
        forall|q: Position, a: NodeCoord, b: NodeCoord| call_requires(*crosses, (q, a, b)),
        forall|q: Position, f: PlaceFeature| call_requires(*distance, (q, f)),
    ensures
        features_indexed(
            *idx,
            *place_at,
            *crosses,
            *distance,
            old(cache)@,
            final(cache)@,
            doc_result(r),
        ),
        r is Err ==> r->Err_0 == IndexError::OutOfRange,
{
    let targets = match list_features(idx, place_at) {
        Ok(targets) => targets,
        Err(e) => {
            assert(listing_described(*idx, *crosses, *distance, None, cache@, cache@, None));
            return Err(e);
        },
    };
    let ghost listing = Some(target_views(targets@));
    let ghost before = cache@;
    assert(features_listed(*idx, *place_at, listing));
    let docs = describe_all(idx, cache, &targets, crosses, distance);
    assert(listing_described(
        *idx,
        *crosses,
        *distance,
        listing,
        before,
        cache@,
        doc_result(docs),
    ));
    docs
}

/// Indexing the streets turns the cache from `before` into `after` and gives `r`.
pub open spec fn streets_indexed<
    C: Fn(&Vec<NodeCoord>) -> Position,
    M: Fn(&Vec<(Position, u8)>) -> Position,
    F: Fn(Position, NodeCoord, NodeCoord) -> bool,
    D: Fn(Position, PlaceFeature) -> u64,
>(
    idx: BinaryIndex,
    centroid: C,
    merge: M,
    crosses: F,
    distance: D,
    before: Map<u64, ContextModel>,
    after: Map<u64, ContextModel>,
    r: Option<Seq<DocModel>>,
) -> bool {
    exists|listing: Option<Seq<TargetModel>>| #[trigger]
        streets_listed(idx, centroid, merge, listing) && listing_described(
            idx,
            crosses,
            distance,
            listing,
            before,
            after,
            r,
        )
}

/// The documents of the streets.
pub fn index_streets<
    C: Fn(&Vec<NodeCoord>) -> Position,
    M: Fn(&Vec<(Position, u8)>) -> Position,
    F: Fn(Position, NodeCoord, NodeCoord) -> bool,
    D: Fn(Position, PlaceFeature) -> u64,
>(
    idx: &BinaryIndex,
    cache: &mut AdminCache,
    centroid: &C,
    merge: &M,
    crosses: &F,
    distance: &D,
) -> (r: Result<Vec<SearchDoc>, IndexError>)
    requires
        forall|v: Vec<NodeCoord>| #[trigger] call_requires(*centroid, (&v,)),
        forall|v: Vec<(Position, u8)>| #[trigger] call_requires(*merge, (&v,)),
        forall|v: Vec<(Position, u8)>, p: Position| #[trigger]
            call_ensures(*merge, (&v,), p) ==> p.is_valid(),
        forall|q: Position, a: NodeCoord, b: NodeCoord| call_requires(*crosses, (q, a, b)),
        forall|q: Position, f: PlaceFeature| call_requires(*distance, (q, f)),
    ensures
        streets_indexed(
            *idx,
            *centroid,
            *merge,
            *crosses,
            *distance,
            old(cache)@,
            final(cache)@,
            doc_result(r),
        ),
        r is Err ==> r->Err_0 == IndexError::OutOfRange,
{
    let targets = match list_streets(idx, centroid, merge) {
        Ok(targets) => targets,
        Err(e) => {
            assert(listing_described(*idx, *crosses, *distance, None, cache@, cache@, None));
            return Err(e);
        },
    };
    let ghost listing = Some(target_views(targets@));
    let ghost before = cache@;
    assert(streets_listed(*idx, *centroid, *merge, listing));
    let docs = describe_all(idx, cache, &targets, crosses, distance);
    assert(listing_described(
        *idx,
        *crosses,
        *distance,
        listing,
        before,
        cache@,
        doc_result(docs),
    ));
    docs
}

// --- The index ---

/// Two lists of documents, one after the other.
pub open spec fn both(a: Option<Seq<DocModel>>, b: Option<Seq<DocModel>>) -> Option<
    Seq<DocModel>,
> {
    match (a, b) {
        (Some(a), Some(b)) => Some(a + b),
        _ => None,
    }
}

/// `r` is the documents of the streets, behind those of the other places.
pub open spec fn docs_from_streets<
    C: Fn(&Vec<NodeCoord>) -> Position,
    M: Fn(&Vec<(Position, u8)>) -> Position,
    F: Fn(Position, NodeCoord, NodeCoord) -> bool,
    D: Fn(Position, PlaceFeature) -> u64,
>(
    idx: BinaryIndex,
    centroid: C,
    merge: M,
    crosses: F,
    distance: D,
    cache: Map<u64, ContextModel>,
    others: Option<Seq<DocModel>>,
    r: Option<Seq<DocModel>>,
) -> bool {
    if others is None {
        r is None
    } else {
        exists|after: Map<u64, ContextModel>, streets: Option<Seq<DocModel>>| #[trigger]
            streets_indexed(
                idx,
                centroid,
                merge,
                crosses,
                distance,
                cache,
                after,
                streets,
            ) && r == both(others, streets)
    }
}

/// `r` is the documents of the named places and the streets, behind those of
/// the areas.
pub open spec fn docs_from_features<
    C: Fn(&Vec<NodeCoord>) -> Position,
    A: Fn(PlaceFeature) -> Position,
    M: Fn(&Vec<(Position, u8)>) -> Position,
    F: Fn(Position, NodeCoord, NodeCoord) -> bool,
    D: Fn(Position, PlaceFeature) -> u64,
>(
    idx: BinaryIndex,
    centroid: C,
    place_at: A,
    merge: M,
    crosses: F,
    distance: D,
    cache: Map<u64, ContextModel>,
    areas: Option<Seq<DocModel>>,
    r: Option<Seq<DocModel>>,
) -> bool {
    if areas is None {
        r is None
    } else {
        exists|after: Map<u64, ContextModel>, features: Option<Seq<DocModel>>| #[trigger]
            features_indexed(
                idx,
                place_at,
                crosses,
                distance,
                cache,
                after,
                features,
            ) && docs_from_streets(
                idx,
                centroid,
                merge,
                crosses,
                distance,
                after,
                both(areas, features),
                r,
            )
    }
}

/// `r` is the documents of all places: areas, named places, streets, with one
/// cache for them all. Nothing where the index points outside a table.
pub open spec fn docs_found<
    C: Fn(&Vec<NodeCoord>) -> Position,
    W: Fn(Position) -> (i16, i16),
    A: Fn(PlaceFeature) -> Position,
    M: Fn(&Vec<(Position, u8)>) -> Position,
    F: Fn(Position, NodeCoord, NodeCoord) -> bool,
    D: Fn(Position, PlaceFeature) -> u64,
>(
    idx: BinaryIndex,
    centroid: C,
    whole_degrees: W,
    place_at: A,
    merge: M,
    crosses: F,
    distance: D,
    r: Option<Seq<DocModel>>,
) -> bool {
    exists|after: Map<u64, ContextModel>, areas: Option<Seq<DocModel>>| #[trigger]
        areas_indexed(
            idx,
            centroid,
            whole_degrees,
            crosses,
            distance,
            Map::empty(),
            after,
            areas,
        ) && docs_from_features(
            idx,
            centroid,
            place_at,
            merge,
            crosses,
            distance,
            after,
            areas,
            r,
        )
}

proof fn lemma_doc_views_append(a: Seq<SearchDoc>, b: Seq<SearchDoc>)
    ensures
        doc_views(a + b) == doc_views(a) + doc_views(b),
{
    assert(doc_views(a + b) =~= doc_views(a) + doc_views(b));
}

/// Puts together the documents of all places.
pub fn collect_docs<
    C: Fn(&Vec<NodeCoord>) -> Position,
    W: Fn(Position) -> (i16, i16),
    A: Fn(PlaceFeature) -> Position,
    M: Fn(&Vec<(Position, u8)>) -> Position,
    F: Fn(Position, NodeCoord, NodeCoord) -> bool,
    D: Fn(Position, PlaceFeature) -> u64,
>(
    idx: &BinaryIndex,
    centroid: &C,
    whole_degrees: &W,
    place_at: &A,
    merge: &M,
    crosses: &F,
    distance: &D,
) -> (r: Result<Vec<SearchDoc>, IndexError>)
    requires
        forall|v: Vec<NodeCoord>| #[trigger] call_requires(*centroid, (&v,)),
        forall|v: Vec<NodeCoord>, p: Position| #[trigger]
            call_ensures(*centroid, (&v,), p) ==> p.is_valid(),
        forall|p: Position| call_requires(*whole_degrees, (p,)),
        forall|f: PlaceFeature| call_requires(*place_at, (f,)),
        forall|f: PlaceFeature, p: Position| #[trigger]
            call_ensures(*place_at, (f,), p) ==> p.is_valid(),
        forall|v: Vec<(Position, u8)>| #[trigger] call_requires(*merge, (&v,)),
        forall|v: Vec<(Position, u8)>, p: Position| #[trigger]
            call_ensures(*merge, (&v,), p) ==> p.is_valid(),
        forall|q: Position, a: NodeCoord, b: NodeCoord| call_requires(*crosses, (q, a, b)),
        forall|q: Position, f: PlaceFeature| call_requires(*distance, (q, f)),
    ensures
        docs_found(
            *idx,
            *centroid,
            *whole_degrees,
            *place_at,
            *merge,
            *crosses,
            *distance,
            doc_result(r),
        ),
        r is Err ==> r->Err_0 == IndexError::OutOfRange,
{
    let mut cache = AdminCache::new();
    let areas = index_admin_polygons(
        idx,
        &mut cache,
        centroid,
        whole_degrees,
        crosses,
        distance,
    );
    let ghost areas_view = doc_result(areas);
    let ghost cache_1 = cache@;
    let mut docs = match areas {
        Ok(docs) => docs,
        Err(e) => {
            assert(docs_from_features(
                *idx,
                *centroid,
                *place_at,
                *merge,
                *crosses,
                *distance,
                cache_1,
                areas_view,
                None,
            ));
            return Err(e);
        },
    };
    let features = index_place_features(idx, &mut cache, place_at, crosses, distance);
    let ghost features_view = doc_result(features);
    let ghost cache_2 = cache@;
    let mut features = match features {
        Ok(features) => features,
        Err(e) => {
            assert(docs_from_streets(
                *idx,
                *centroid,
                *merge,
                *crosses,
                *distance,
                cache_2,
                both(areas_view, features_view),
                None,
            ));
            assert(docs_from_features(
                *idx,
                *centroid,
                *place_at,
                *merge,
                *crosses,
                *distance,
                cache_1,
                areas_view,
                None,
            ));
            return Err(e);
        },
    };
    proof {
        lemma_doc_views_append(docs@, features@);
    }
    docs.append(&mut features);
    let ghost others = both(areas_view, features_view);
    let streets = index_streets(idx, &mut cache, centroid, merge, crosses, distance);
    let ghost r_view = both(others, doc_result(streets));
    assert(docs_from_streets(
        *idx,
        *centroid,
        *merge,
        *crosses,
        *distance,
        cache_2,
        others,
        r_view,
    ));
    assert(docs_from_features(
        *idx,
        *centroid,
        *place_at,
        *merge,
        *crosses,
        *distance,
        cache_1,
        areas_view,
        r_view,
    ));
    match streets {
        Ok(mut streets) => {
            proof {
                lemma_doc_views_append(docs@, streets@);
            }
            docs.append(&mut streets);
            Ok(docs)
        },
        Err(e) => Err(e),
    }
}

/// Why an index could not be built.
pub enum BuildError {
    /// The binary index points outside a table.
    Index(IndexError),
    /// The engine failed.
    Engine(TantivyError),
}

/// The memory that the engine may use while it builds the index, in bytes.
pub const WRITER_MEMORY: usize = 64_000_000;

/// The values of the documents for some places, in order.
pub open spec fn all_values(ss: SearchSchema, docs: Seq<DocModel>) -> Seq<Seq<(u32, DocValue)>> {
    docs.map_values(|d: DocModel| place_values(ss, d))
}

/// Hands the documents to a writer in turn. The writer takes in all of them,
/// unless it breaks.
pub fn write_docs(ss: &SearchSchema, writer: &mut Writer, docs: &Vec<SearchDoc>)
    ensures
        writer_fields(*final(writer)) == writer_fields(*old(writer)),
        is_broken(*old(writer)) ==> is_broken(*final(writer)),
        is_broken(*final(writer)) || handed_in(*final(writer)) == handed_in(*old(writer))
            + all_values(*ss, doc_views(docs@)),
{
    let ghost values = all_values(*ss, doc_views(docs@));
    assert(handed_in(*writer) =~= handed_in(*old(writer)) + values.take(0));
    let mut k: usize = 0;
    while k < docs.len()
        invariant
            values == all_values(*ss, doc_views(docs@)),
            k <= docs@.len(),
            writer_fields(*writer) == writer_fields(*old(writer)),
            is_broken(*old(writer)) ==> is_broken(*writer),
            is_broken(*writer) || handed_in(*writer) == handed_in(*old(writer)) + values.take(
                k as int,
            ),
        decreases docs@.len() - k,
    {
        let ghost before = handed_in(*writer);
        let doc = make_doc(ss, &docs[k]);
        let added = add_document(writer, doc);
        proof {
            assert(values[k as int] == place_values(*ss, docs@[k as int]@));
            if added is Ok && before == handed_in(*old(writer)) + values.take(k as int) {
                assert(handed_in(*writer) =~= handed_in(*old(writer)) + values.take(k + 1));
            }
        }
        k = k + 1;
    }
    assert(values.take(docs@.len() as int) =~= values);
}

/// Makes the outcome of building an index from that of publishing it: there is
/// one if and only if it was published, and the engine's error is handed on.
pub fn publish(outcome: Result<tantivy::Index, TantivyError>) -> (r: Result<
    tantivy::Index,
    BuildError,
>)
    ensures
        match (outcome, r) {
            (Ok(index), Ok(built)) => built == index,
            (Err(e), Err(BuildError::Engine(f))) => f == e,
            _ => false,
        },
{
    match outcome {
        Ok(index) => Ok(index),
        Err(e) => Err(BuildError::Engine(e)),
    }
}

/// Fills an index through a writer, from the outcome of opening one. Where none
/// was opened, the engine's error is handed on; else the index that is published
/// holds what the writer had and the documents for all places. Whether the engine
/// publishes it is not stated; what follows from either outcome, `publish` says.
pub fn fill_index(
    ss: &SearchSchema,
    opened: Result<Writer, TantivyError>,
    docs: &Vec<SearchDoc>,
) -> (r: Result<tantivy::Index, BuildError>)
    ensures
        match (opened, r) {
            (Ok(writer), Ok(index)) => index_fields(index) == writer_fields(writer)
                && !is_broken(writer) && index_docs(index) == (handed_in(writer) + all_values(
                *ss,
                doc_views(docs@),
            )).to_multiset(),
            (Err(e), Err(BuildError::Engine(f))) => f == e,
            (Ok(_), Err(BuildError::Engine(_))) => true,
            _ => false,
        },
{
    match opened {
        Ok(mut writer) => {
            write_docs(ss, &mut writer, docs);
            publish(commit(writer))
        },
        Err(e) => Err(BuildError::Engine(e)),
    }
}

/// Whether an index has the standard fields and holds the documents for the
/// places.
pub open spec fn holds_all(index: tantivy::Index, ss: SearchSchema, docs: Seq<DocModel>) -> bool {
    &&& ss.is_standard()
    &&& index_fields(index) == search_fields()
    &&& index_docs(index) == all_values(ss, docs).to_multiset()
}

/// Whether every document is that of one of the places.
pub open spec fn holds_only(
    ss: SearchSchema,
    docs: Multiset<Seq<(u32, DocValue)>>,
    places: Seq<DocModel>,
) -> bool {
    forall|values: Seq<(u32, DocValue)>| #[trigger]
        docs.contains(values) ==> exists|i: int|
            0 <= i < places.len() && values == place_values(ss, #[trigger] places[i])
}

/// An index that was built holds one document for each place, and no others.
pub proof fn law_index_holds_places(index: tantivy::Index, ss: SearchSchema, docs: Seq<DocModel>)
    requires
        holds_all(index, ss, docs),
    ensures
        index_docs(index).len() == docs.len(),
        forall|i: int|
            0 <= i < docs.len() ==> index_docs(index).contains(
                place_values(ss, #[trigger] docs[i]),
            ),
        holds_only(ss, index_docs(index), docs),
{
    let all = all_values(ss, docs);
    all.to_multiset_ensures();
    assert forall|i: int| 0 <= i < docs.len() implies index_docs(index).contains(
        place_values(ss, #[trigger] docs[i]),
    ) by {
        assert(all[i] == place_values(ss, docs[i]));
        assert(all.contains(all[i]));
    }
    assert forall|values: Seq<(u32, DocValue)>| #[trigger]
        index_docs(index).contains(values) implies exists|i: int|
        0 <= i < docs.len() && values == place_values(ss, #[trigger] docs[i]) by {
        assert(all.contains(values));
        let i = choose|i: int| 0 <= i < all.len() && all[i] == values;
        assert(values == place_values(ss, docs[i]));
    }
}

/// Builds the full-text index of all places. The engine is asked only once the
/// documents of all places are put together. Whether the engine fails is not
/// stated; what follows from its outcomes, `fill_index` and `publish` say.
pub fn build_index<
    C: Fn(&Vec<NodeCoord>) -> Position,
    W: Fn(Position) -> (i16, i16),
    A: Fn(PlaceFeature) -> Position,
    M: Fn(&Vec<(Position, u8)>) -> Position,
    F: Fn(Position, NodeCoord, NodeCoord) -> bool,
    D: Fn(Position, PlaceFeature) -> u64,
>(
    idx: &BinaryIndex,
    centroid: &C,
    whole_degrees: &W,
    place_at: &A,
    merge: &M,
    crosses: &F,
    distance: &D,
) -> (r: Result<tantivy::Index, BuildError>)
    requires
        forall|v: Vec<NodeCoord>| #[trigger] call_requires(*centroid, (&v,)),
        forall|v: Vec<NodeCoord>, p: Position| #[trigger]
            call_ensures(*centroid, (&v,), p) ==> p.is_valid(),
        forall|p: Position| call_requires(*whole_degrees, (p,)),
        forall|f: PlaceFeature| call_requires(*place_at, (f,)),
        forall|f: PlaceFeature, p: Position| #[trigger]
            call_ensures(*place_at, (f,), p) ==> p.is_valid(),
        forall|v: Vec<(Position, u8)>| #[trigger] call_requires(*merge, (&v,)),
        forall|v: Vec<(Position, u8)>, p: Position| #[trigger]
            call_ensures(*merge, (&v,), p) ==> p.is_valid(),
        forall|q: Position, a: NodeCoord, b: NodeCoord| call_requires(*crosses, (q, a, b)),
        forall|q: Position, f: PlaceFeature| call_requires(*distance, (q, f)),
    ensures
        r is Ok ==> exists|ss: SearchSchema, docs: Seq<DocModel>| #[trigger]
            holds_all(r->Ok_0, ss, docs) && docs_found(
                *idx,
                *centroid,
                *whole_degrees,
                *place_at,
                *merge,
                *crosses,
                *distance,
                Some(docs),
            ),
        r is Err && r->Err_0 is Index ==> r->Err_0->Index_0 == IndexError::OutOfRange && docs_found(
            *idx,
            *centroid,
            *whole_degrees,
            *place_at,
            *merge,
            *crosses,
            *distance,
            None,
        ),
        r is Err && r->Err_0 is Engine ==> exists|docs: Seq<DocModel>| #[trigger]
            docs_found(
                *idx,
                *centroid,
                *whole_degrees,
                *place_at,
                *merge,
                *crosses,
                *distance,
                Some(docs),
            ),
{
    let docs = match collect_docs(
        idx,
        centroid,
        whole_degrees,
        place_at,
        merge,
        crosses,
        distance,
    ) {
        Ok(docs) => docs,
        Err(e) => return Err(BuildError::Index(e)),
    };
    let ghost models = doc_views(docs@);
    assert(docs_found(
        *idx,
        *centroid,
        *whole_degrees,
        *place_at,
        *merge,
        *crosses,
        *distance,
        Some(models),
    ));
    let ss = build_schema();
    let r = fill_index(&ss, open_writer(create_in_ram(&ss.schema), WRITER_MEMORY), &docs);
    proof {
        if r is Ok {
            let values = all_values(ss, models);
            assert(Seq::<Seq<(u32, DocValue)>>::empty() + values =~= values);
            assert(holds_all(r->Ok_0, ss, models));
        }
    }
    r
}

// --- What an area is placed by ---

/// Whether both indexes give every point the same context.
pub open spec fn same_contexts<
    F: Fn(Position, NodeCoord, NodeCoord) -> bool,
    D: Fn(Position, PlaceFeature) -> u64,
>(idx: BinaryIndex, other: BinaryIndex, crosses: F, distance: D) -> bool {
    forall|p: Position, c: Option<ContextModel>|
        #![trigger finds_admin(idx, p, crosses, distance, c)]
        #![trigger finds_admin(other, p, crosses, distance, c)]
        finds_admin(other, p, crosses, distance, c) <==> finds_admin(idx, p, crosses, distance, c)
}

proof fn lemma_described_by_contexts<
    F: Fn(Position, NodeCoord, NodeCoord) -> bool,
    D: Fn(Position, PlaceFeature) -> u64,
>(
    idx: BinaryIndex,
    other: BinaryIndex,
    crosses: F,
    distance: D,
    targets: Seq<TargetModel>,
    before: Map<u64, ContextModel>,
    after: Map<u64, ContextModel>,
    r: Option<Seq<DocModel>>,
)
    requires
        same_contexts(idx, other, crosses, distance),
        described(idx, crosses, distance, targets, before, after, r),
    ensures
        described(other, crosses, distance, targets, before, after, r),
{
    let (caches, contexts) = choose|
        caches: Seq<Map<u64, ContextModel>>,
        contexts: Seq<ContextModel>,
    | #[trigger]
        looked_up(idx, crosses, distance, targets, caches, contexts) && caches[0] == before
            && caches.last() == after && ends_as(
            idx,
            crosses,
            distance,
            targets,
            contexts,
            after,
            r,
        );
    assert(looked_up(other, crosses, distance, targets, caches, contexts)) by {
        assert forall|k: int| 0 <= k < contexts.len() implies cache_gives(
            other,
            targets[k].at,
            crosses,
            distance,
            caches[k],
            caches[k + 1],
            Some(#[trigger] contexts[k]),
        ) by {
            assert(cache_gives(
                idx,
                targets[k].at,
                crosses,
                distance,
                caches[k],
                caches[k + 1],
                Some(contexts[k]),
            ));
        }
    }
}

proof fn lemma_areas_indexed_by_tables<
    C: Fn(&Vec<NodeCoord>) -> Position,
    W: Fn(Position) -> (i16, i16),
    F: Fn(Position, NodeCoord, NodeCoord) -> bool,
    D: Fn(Position, PlaceFeature) -> u64,
>(
    idx: BinaryIndex,
    other: BinaryIndex,
    centroid: C,
    whole_degrees: W,
    crosses: F,
    distance: D,
    before: Map<u64, ContextModel>,
    after: Map<u64, ContextModel>,
    r: Option<Seq<DocModel>>,
)
    requires
        same_but_for_later_corners(idx, other),
        same_contexts(idx, other, crosses, distance),
        areas_indexed(idx, centroid, whole_degrees, crosses, distance, before, after, r),
    ensures
        areas_indexed(other, centroid, whole_degrees, crosses, distance, before, after, r),
{
    let x = choose|x: Option<Seq<TargetModel>>| #[trigger]
        areas_listed(idx, centroid, whole_degrees, x) && listing_described(
            idx,
            crosses,
            distance,
            x,
            before,
            after,
            r,
        );
    law_later_corners_do_not_place_areas(idx, other, centroid, whole_degrees, x);
    if let Some(targets) = x {
        lemma_described_by_contexts(idx, other, crosses, distance, targets, before, after, r);
    }
    assert(listing_described(other, crosses, distance, x, before, after, r));
}

/// The documents of the areas are the same, whatever the corners of an area behind
/// the first 64 are, as long as the contexts of the points are.
pub proof fn law_later_corners_do_not_change_documents<
    C: Fn(&Vec<NodeCoord>) -> Position,
    W: Fn(Position) -> (i16, i16),
    F: Fn(Position, NodeCoord, NodeCoord) -> bool,
    D: Fn(Position, PlaceFeature) -> u64,
>(
    idx: BinaryIndex,
    other: BinaryIndex,
    centroid: C,
    whole_degrees: W,
    crosses: F,
    distance: D,
    before: Map<u64, ContextModel>,
    after: Map<u64, ContextModel>,
    r: Option<Seq<DocModel>>,
)
    requires
        same_but_for_later_corners(idx, other),
        same_contexts(idx, other, crosses, distance),
    ensures
        areas_indexed(other, centroid, whole_degrees, crosses, distance, before, after, r)
            <==> areas_indexed(
            idx,
            centroid,
            whole_degrees,
            crosses,
            distance,
            before,
            after,
            r,
        ),
{
    if areas_indexed(idx, centroid, whole_degrees, crosses, distance, before, after, r) {
        lemma_areas_indexed_by_tables(
            idx,
            other,
            centroid,
            whole_degrees,
            crosses,
            distance,
            before,
            after,
            r,
        );
    }
    if areas_indexed(other, centroid, whole_degrees, crosses, distance, before, after, r) {
        lemma_areas_indexed_by_tables(
            other,
            idx,
            centroid,
            whole_degrees,
            crosses,
            distance,
            before,
            after,
            r,
        );
    }
}

// --- One outcome ---

proof fn lemma_contexts_same<
    F: Fn(Position, NodeCoord, NodeCoord) -> bool,
    D: Fn(Position, PlaceFeature) -> u64,
>(
    idx: BinaryIndex,
    crosses: F,
    distance: D,
    targets: Seq<TargetModel>,
    caches_x: Seq<Map<u64, ContextModel>>,
    x: Seq<ContextModel>,
    caches_y: Seq<Map<u64, ContextModel>>,
    y: Seq<ContextModel>,
    k: int,
)
    requires
        answers_edges_once(crosses),
        answers_places_once(distance),
        looked_up(idx, crosses, distance, targets, caches_x, x),
        looked_up(idx, crosses, distance, targets, caches_y, y),
        caches_x[0] == caches_y[0],
        0 <= k <= x.len(),
        k <= y.len(),
    ensures
        caches_x[k] == caches_y[k],
        forall|i: int| 0 <= i < k ==> x[i] == y[i],
    decreases k,
{
    if k > 0 {
        lemma_contexts_same(
            idx,
            crosses,
            distance,
            targets,
            caches_x,
            x,
            caches_y,
            y,
            k - 1,
        );
        let a = Some(x[k - 1]);
        let b = Some(y[k - 1]);
        law_lookup_is_determined(
            idx,
            targets[k - 1].at,
            crosses,
            distance,
            caches_x[k - 1],
            caches_x[k],
            a,
            caches_y[k],
            b,
        );
    }
}

proof fn lemma_described_once<
    F: Fn(Position, NodeCoord, NodeCoord) -> bool,
    D: Fn(Position, PlaceFeature) -> u64,
>(
    idx: BinaryIndex,
    crosses: F,
    distance: D,
    targets: Seq<TargetModel>,
    before: Map<u64, ContextModel>,
    after_r: Map<u64, ContextModel>,
    r: Option<Seq<DocModel>>,
    after_s: Map<u64, ContextModel>,
    s: Option<Seq<DocModel>>,
)
    requires
        answers_edges_once(crosses),
        answers_places_once(distance),
        described(idx, crosses, distance, targets, before, after_r, r),
        described(idx, crosses, distance, targets, before, after_s, s),
    ensures
        r == s,
        after_r == after_s,
{
    let (caches_x, x) = choose|caches: Seq<Map<u64, ContextModel>>, contexts: Seq<ContextModel>|
        #[trigger]
        looked_up(idx, crosses, distance, targets, caches, contexts) && caches[0] == before
            && caches.last() == after_r && ends_as(
            idx,
            crosses,
            distance,
            targets,
            contexts,
            after_r,
            r,
        );
    let (caches_y, y) = choose|caches: Seq<Map<u64, ContextModel>>, contexts: Seq<ContextModel>|
        #[trigger]
        looked_up(idx, crosses, distance, targets, caches, contexts) && caches[0] == before
            && caches.last() == after_s && ends_as(
            idx,
            crosses,
            distance,
            targets,
            contexts,
            after_s,
            s,
        );
    let n = if x.len() <= y.len() {
        x.len() as int
    } else {
        y.len() as int
    };
    lemma_contexts_same(idx, crosses, distance, targets, caches_x, x, caches_y, y, n);
    if x.len() < y.len() {
        law_lookup_is_determined(
            idx,
            targets[n].at,
            crosses,
            distance,
            caches_x[n],
            after_r,
            None,
            caches_y[n + 1],
            Some(y[n]),
        );
    } else if y.len() < x.len() {
        law_lookup_is_determined(
            idx,
            targets[n].at,
            crosses,
            distance,
            caches_y[n],
            after_s,
            None,
            caches_x[n + 1],
            Some(x[n]),
        );
    } else {
        assert(x =~= y);
    }
}

proof fn lemma_areas_once<
    C: Fn(&Vec<NodeCoord>) -> Position,
    W: Fn(Position) -> (i16, i16),
    F: Fn(Position, NodeCoord, NodeCoord) -> bool,
    D: Fn(Position, PlaceFeature) -> u64,
>(
    idx: BinaryIndex,
    centroid: C,
    whole_degrees: W,
    crosses: F,
    distance: D,
    before: Map<u64, ContextModel>,
    after_r: Map<u64, ContextModel>,
    r: Option<Seq<DocModel>>,
    after_s: Map<u64, ContextModel>,
    s: Option<Seq<DocModel>>,
)
    requires
        answers_middles_once(centroid),
        answers_degrees_once(whole_degrees),
        answers_edges_once(crosses),
        answers_places_once(distance),
        areas_indexed(idx, centroid, whole_degrees, crosses, distance, before, after_r, r),
        areas_indexed(idx, centroid, whole_degrees, crosses, distance, before, after_s, s),
    ensures
        r == s,
        after_r == after_s,
{
    let x = choose|x: Option<Seq<TargetModel>>| #[trigger]
        areas_listed(idx, centroid, whole_degrees, x) && listing_described(
            idx,
            crosses,
            distance,
            x,
            before,
            after_r,
            r,
        );
    let y = choose|y: Option<Seq<TargetModel>>| #[trigger]
        areas_listed(idx, centroid, whole_degrees, y) && listing_described(
            idx,
            crosses,
            distance,
            y,
            before,
            after_s,
            s,
        );
    law_area_list_is_determined(idx, centroid, whole_degrees, x, y);
    if let Some(targets) = x {
        lemma_described_once(
            idx,
            crosses,
            distance,
            targets,
            before,
            after_r,
            r,
            after_s,
            s,
        );
    }
}

proof fn lemma_features_once<
    A: Fn(PlaceFeature) -> Position,
    F: Fn(Position, NodeCoord, NodeCoord) -> bool,
    D: Fn(Position, PlaceFeature) -> u64,
>(
    idx: BinaryIndex,
    place_at: A,
    crosses: F,
    distance: D,
    before: Map<u64, ContextModel>,
    after_r: Map<u64, ContextModel>,
    r: Option<Seq<DocModel>>,
    after_s: Map<u64, ContextModel>,
    s: Option<Seq<DocModel>>,
)
    requires
        answers_features_once(place_at),
        answers_edges_once(crosses),
        answers_places_once(distance),
        features_indexed(idx, place_at, crosses, distance, before, after_r, r),
        features_indexed(idx, place_at, crosses, distance, before, after_s, s),
    ensures
        r == s,
        after_r == after_s,
{
    let x = choose|x: Option<Seq<TargetModel>>| #[trigger]
        features_listed(idx, place_at, x) && listing_described(
            idx,
            crosses,
            distance,
            x,
            before,
            after_r,
            r,
        );
    let y = choose|y: Option<Seq<TargetModel>>| #[trigger]
        features_listed(idx, place_at, y) && listing_described(
            idx,
            crosses,
            distance,
            y,
            before,
            after_s,
            s,
        );
    law_feature_list_is_determined(idx, place_at, x, y);
    if let Some(targets) = x {
        lemma_described_once(
            idx,
            crosses,
            distance,
            targets,
            before,
            after_r,
            r,
            after_s,
            s,
        );
    }
}

proof fn lemma_streets_once<
    C: Fn(&Vec<NodeCoord>) -> Position,
    M: Fn(&Vec<(Position, u8)>) -> Position,
    F: Fn(Position, NodeCoord, NodeCoord) -> bool,
    D: Fn(Position, PlaceFeature) -> u64,
>(
    idx: BinaryIndex,
    centroid: C,
    merge: M,
    crosses: F,
    distance: D,
    before: Map<u64, ContextModel>,
    after_r: Map<u64, ContextModel>,
    r: Option<Seq<DocModel>>,
    after_s: Map<u64, ContextModel>,
    s: Option<Seq<DocModel>>,
)
    requires
        answers_middles_once(centroid),
        answers_merges_once(merge),
        answers_edges_once(crosses),
        answers_places_once(distance),
        streets_indexed(idx, centroid, merge, crosses, distance, before, after_r, r),
        streets_indexed(idx, centroid, merge, crosses, distance, before, after_s, s),
    ensures
        r == s,
        after_r == after_s,
{
    let x = choose|x: Option<Seq<TargetModel>>| #[trigger]
        streets_listed(idx, centroid, merge, x) && listing_described(
            idx,
            crosses,
            distance,
            x,
            before,
            after_r,
            r,
        );
    let y = choose|y: Option<Seq<TargetModel>>| #[trigger]
        streets_listed(idx, centroid, merge, y) && listing_described(
            idx,
            crosses,
            distance,
            y,
            before,
            after_s,
            s,
        );
    law_street_list_is_determined(idx, centroid, merge, x, y);
    if let Some(targets) = x {
        lemma_described_once(
            idx,
            crosses,
            distance,
            targets,
            before,
            after_r,
            r,
            after_s,
            s,
        );
    }
}

/// The documents of an index are determined, as long as the functions passed in
/// answer always the same way.
pub proof fn law_documents_are_determined<
    C: Fn(&Vec<NodeCoord>) -> Position,
    W: Fn(Position) -> (i16, i16),
    A: Fn(PlaceFeature) -> Position,
    M: Fn(&Vec<(Position, u8)>) -> Position,
    F: Fn(Position, NodeCoord, NodeCoord) -> bool,
    D: Fn(Position, PlaceFeature) -> u64,
>(
    idx: BinaryIndex,
    centroid: C,
    whole_degrees: W,
    place_at: A,
    merge: M,
    crosses: F,
    distance: D,
    r: Option<Seq<DocModel>>,
    s: Option<Seq<DocModel>>,
)
    requires
        answers_middles_once(centroid),
        answers_degrees_once(whole_degrees),
        answers_features_once(place_at),
        answers_merges_once(merge),
        answers_edges_once(crosses),
        answers_places_once(distance),
        docs_found(idx, centroid, whole_degrees, place_at, merge, crosses, distance, r),
        docs_found(idx, centroid, whole_degrees, place_at, merge, crosses, distance, s),
    ensures
        r == s,
{
    let start = Map::<u64, ContextModel>::empty();
    let (c1, a1) = choose|c: Map<u64, ContextModel>, a: Option<Seq<DocModel>>| #[trigger]
        areas_indexed(idx, centroid, whole_degrees, crosses, distance, start, c, a)
            && docs_from_features(
            idx,
            centroid,
            place_at,
            merge,
            crosses,
            distance,
            c,
            a,
            r,
        );
    let (c2, a2) = choose|c: Map<u64, ContextModel>, a: Option<Seq<DocModel>>| #[trigger]
        areas_indexed(idx, centroid, whole_degrees, crosses, distance, start, c, a)
            && docs_from_features(
            idx,
            centroid,
            place_at,
            merge,
            crosses,
            distance,
            c,
            a,
            s,
        );
    lemma_areas_once(
        idx,
        centroid,
        whole_degrees,
        crosses,
        distance,
        start,
        c1,
        a1,
        c2,
        a2,
    );
    if a1 is Some {
        let (d1, f1) = choose|c: Map<u64, ContextModel>, f: Option<Seq<DocModel>>| #[trigger]
            features_indexed(idx, place_at, crosses, distance, c1, c, f) && docs_from_streets(
                idx,
                centroid,
                merge,
                crosses,
                distance,
                c,
                both(a1, f),
                r,
            );
        let (d2, f2) = choose|c: Map<u64, ContextModel>, f: Option<Seq<DocModel>>| #[trigger]
            features_indexed(idx, place_at, crosses, distance, c1, c, f) && docs_from_streets(
                idx,
                centroid,
                merge,
                crosses,
                distance,
                c,
                both(a1, f),
                s,
            );
        lemma_features_once(idx, place_at, crosses, distance, c1, d1, f1, d2, f2);
        let others = both(a1, f1);
        if others is Some {
            let (e1, g1) = choose|c: Map<u64, ContextModel>, g: Option<Seq<DocModel>>| #[trigger]
                streets_indexed(idx, centroid, merge, crosses, distance, d1, c, g) && r == both(
                    others,
                    g,
                );
            let (e2, g2) = choose|c: Map<u64, ContextModel>, g: Option<Seq<DocModel>>| #[trigger]
                streets_indexed(idx, centroid, merge, crosses, distance, d1, c, g) && s == both(
                    others,
                    g,
                );
            lemma_streets_once(
                idx,
                centroid,
                merge,
                crosses,
                distance,
                d1,
                e1,
                g1,
                e2,
                g2,
            );
        }
    }
}

// --- What is shown and found ---

/// What is shown of an area of level L is its name and, behind it, only the known
/// names of areas of a level below L, from the smallest area to the largest: the
/// city is of level 8, the county 6, the state 4 and the country 2. Where all of
/// these together are without a character, the name stands alone.
pub proof fn law_areas_are_shown_within_larger_ones(t: TargetModel, ctx: ContextModel, level: u8)
    requires
        t.level == Some(level),
        level == 4 || level == 6 || level == 8 || level == 9 || level == 10,
    ensures
        ({
            let none = Seq::<Seq<char>>::empty();
            let n1 = if 8 < level && ctx.city is Some { none.push(ctx.city->0) } else { none };
            let n2 = if 6 < level && ctx.county is Some { n1.push(ctx.county->0) } else { n1 };
            let n3 = if 4 < level && ctx.state is Some { n2.push(ctx.state->0) } else { n2 };
            let n4 = if 2 < level && ctx.country is Some { n3.push(ctx.country->0) } else { n3 };
            let behind = joined(n4, ", "@);
            doc_of(t, ctx).display == if behind.len() == 0 {
                t.name
            } else {
                t.name + ", "@ + behind
            }
        }),
{
    let none = Seq::<Seq<char>>::empty();
    let n1 = if 8 < level && ctx.city is Some { none.push(ctx.city->0) } else { none };
    let n2 = if 6 < level && ctx.county is Some { n1.push(ctx.county->0) } else { n1 };
    let n3 = if 4 < level && ctx.state is Some { n2.push(ctx.state->0) } else { n2 };
    let n4 = if 2 < level && ctx.country is Some { n3.push(ctx.country->0) } else { n3 };
    assert(areas_above(level, ctx) =~= n4);
}

/// Where the areas round it are all known and have a character, an area is shown by
/// its name and each of them, with a comma and a blank between: a state within the
/// country, a county within the state and the country, a city within the county, and
/// a suburb within the city.
pub proof fn law_known_areas_are_all_shown(t: TargetModel, ctx: ContextModel, level: u8)
    requires
        t.level == Some(level),
        ctx.city is Some && ctx.city->0.len() > 0,
        ctx.county is Some && ctx.county->0.len() > 0,
        ctx.state is Some && ctx.state->0.len() > 0,
        ctx.country is Some && ctx.country->0.len() > 0,
    ensures
        ({
            let shown = doc_of(t, ctx).display;
            let in_country = ", "@ + ctx.country->0;
            let in_state = ", "@ + ctx.state->0 + in_country;
            let in_county = ", "@ + ctx.county->0 + in_state;
            let in_city = ", "@ + ctx.city->0 + in_county;
            &&& level == 4 ==> shown == t.name + in_country
            &&& level == 6 ==> shown == t.name + in_state
            &&& level == 8 ==> shown == t.name + in_county
            &&& level == 9 || level == 10 ==> shown == t.name + in_city
        }),
{
    let sep = ", "@;
    let shown = doc_of(t, ctx).display;
    let in_country = sep + ctx.country->0;
    let in_state = sep + ctx.state->0 + in_country;
    let in_county = sep + ctx.county->0 + in_state;
    let in_city = sep + ctx.city->0 + in_county;
    let c = seq![ctx.country->0];
    let s = seq![ctx.state->0];
    let o = seq![ctx.county->0];
    let y = seq![ctx.city->0];
    law_joining_goes_by_parts(c, c, sep);
    law_joining_goes_by_parts(s, c, sep);
    law_joining_goes_by_parts(o, s + c, sep);
    law_joining_goes_by_parts(y, o + (s + c), sep);
    if level == 4 {
        assert(areas_above(level, ctx) =~= c);
        assert(shown =~= t.name + in_country);
    } else if level == 6 {
        assert(areas_above(level, ctx) =~= s + c);
        assert(shown =~= t.name + in_state);
    } else if level == 8 {
        assert(areas_above(level, ctx) =~= o + (s + c));
        assert(shown =~= t.name + in_county);
    } else if level == 9 || level == 10 {
        assert(areas_above(level, ctx) =~= y + (o + (s + c)));
        assert(shown =~= t.name + in_city);
    }
}

/// A place that is no area is shown by its name and, behind it, all known names of
/// its context, and found by these; an area is found by its own name and these. The
/// rest is said of the place as it is listed.
pub proof fn law_places_are_told_as_listed(t: TargetModel, ctx: ContextModel)
    ensures
        ({
            let doc = doc_of(t, ctx);
            let behind = joined(ctx.names(), ", "@);
            &&& doc.name == t.name
            &&& doc.lat == t.at.lat
            &&& doc.lon == t.at.lng
            &&& doc.kind == t.kind
            &&& doc.importance == t.importance
            &&& t.level is None && behind.len() == 0 ==> doc.display == t.name
            &&& t.level is None && behind.len() > 0 ==> doc.display == t.name + ", "@ + behind
            &&& t.level is None ==> doc.context == joined(ctx.names(), " "@)
            &&& t.level is Some ==> doc.context == t.name + " "@ + joined(ctx.names(), " "@)
        }),
{
}

/// The fields of the index: name, its comparable form and context are searched by
/// words, and of these only the name is kept; what is shown, the coordinates and the
/// kind are kept; the weight is not.
pub proof fn law_fields_are_searched_and_kept(ss: SearchSchema)
    requires
        ss.is_standard(),
    ensures
        ({
            let fields = schema_fields(ss.schema);
            let words = FieldShape::Words { stored: false };
            let kept_words = FieldShape::Words { stored: true };
            let kept_whole = FieldShape::Whole { stored: true };
            let kept_number = FieldShape::Number { stored: true };
            let number = FieldShape::Number { stored: false };
            &&& fields.len() == 8
            &&& fields[ss.f_name as int] == (FieldModel { name: "name"@, shape: kept_words })
            &&& fields[ss.f_name_norm as int] == (FieldModel { name: "name_norm"@, shape: words })
            &&& fields[ss.f_context as int] == (FieldModel { name: "context"@, shape: words })
            &&& fields[ss.f_display as int] == (FieldModel { name: "display"@, shape: kept_whole })
            &&& fields[ss.f_lat as int] == (FieldModel { name: "lat"@, shape: kept_number })
            &&& fields[ss.f_lon as int] == (FieldModel { name: "lon"@, shape: kept_number })
            &&& fields[ss.f_kind as int] == (FieldModel { name: "kind"@, shape: kept_whole })
            &&& fields[ss.f_importance as int] == (FieldModel {
                name: "importance"@,
                shape: number,
            })
        }),
{
}

/// A document has one value in each field, and a place is told by them.
pub proof fn law_documents_tell_their_place(ss: SearchSchema, d: DocModel)
    ensures
        ({
            let values = place_values(ss, d);
            &&& values.len() == 8
            &&& values.contains((ss.f_name, DocValue::Text(normalized(d.name))))
            &&& values.contains((ss.f_name_norm, DocValue::Text(normalized(d.name))))
            &&& values.contains((ss.f_context, DocValue::Text(normalized(d.context))))
            &&& values.contains((ss.f_display, DocValue::Text(d.display)))
            &&& values.contains((ss.f_lat, DocValue::Number(d.lat)))
            &&& values.contains((ss.f_lon, DocValue::Number(d.lon)))
            &&& values.contains((ss.f_kind, DocValue::Text(d.kind)))
            &&& values.contains((ss.f_importance, DocValue::Number(d.importance)))
        }),
{
    let values = place_values(ss, d);
    assert(values[0] == (ss.f_name, DocValue::Text(normalized(d.name))));
    assert(values[1] == (ss.f_name_norm, DocValue::Text(normalized(d.name))));
    assert(values[2] == (ss.f_context, DocValue::Text(normalized(d.context))));
    assert(values[3] == (ss.f_display, DocValue::Text(d.display)));
    assert(values[4] == (ss.f_lat, DocValue::Number(d.lat)));
    assert(values[5] == (ss.f_lon, DocValue::Number(d.lon)));
    assert(values[6] == (ss.f_kind, DocValue::Text(d.kind)));
    assert(values[7] == (ss.f_importance, DocValue::Number(d.importance)));
}

/// Whether `c` is the context of the first place in the same cell of the fourteenth
/// level as place `j`.
pub open spec fn is_context_of_cell<
    F: Fn(Position, NodeCoord, NodeCoord) -> bool,
    D: Fn(Position, PlaceFeature) -> u64,
>(
    idx: BinaryIndex,
    crosses: F,
    distance: D,
    places: Seq<TargetModel>,
    j: int,
    c: ContextModel,
) -> bool {
    exists|i: int|
        0 <= i <= j && finds_admin(
            idx,
            (#[trigger] places[i]).at,
            crosses,
            distance,
            Some(c),
        ) && ancestor(places[i].at.leaf, 14) == ancestor(places[j].at.leaf, 14) && forall|h: int|
            0 <= h < i ==> ancestor((#[trigger] places[h]).at.leaf, 14) != ancestor(
                places[j].at.leaf,
                14,
            )
}

spec fn cache_is_of<
    F: Fn(Position, NodeCoord, NodeCoord) -> bool,
    D: Fn(Position, PlaceFeature) -> u64,
>(
    idx: BinaryIndex,
    crosses: F,
    distance: D,
    places: Seq<TargetModel>,
    contexts: Seq<ContextModel>,
    cache: Map<u64, ContextModel>,
) -> bool {
    &&& contexts.len() == places.len()
    &&& forall|j: int|
        0 <= j < places.len() ==> {
            let cell = ancestor((#[trigger] places[j]).at.leaf, 14);
            cache.contains_key(cell) && cache[cell] == contexts[j]
        }
    &&& forall|j: int|
        0 <= j < places.len() ==> #[trigger] is_context_of_cell(
            idx,
            crosses,
            distance,
            places,
            j,
            contexts[j],
        )
    &&& forall|cell: u64| #[trigger]
        cache.contains_key(cell) ==> exists|j: int|
            0 <= j < places.len() && ancestor((#[trigger] places[j]).at.leaf, 14) == cell
}

proof fn lemma_context_of_more<
    F: Fn(Position, NodeCoord, NodeCoord) -> bool,
    D: Fn(Position, PlaceFeature) -> u64,
>(
    idx: BinaryIndex,
    crosses: F,
    distance: D,
    places: Seq<TargetModel>,
    t: TargetModel,
    j: int,
    k: int,
    c: ContextModel,
)
    requires
        0 <= j < places.len(),
        j <= k <= places.len(),
        ancestor(places[j].at.leaf, 14) == ancestor(places.push(t)[k].at.leaf, 14),
        is_context_of_cell(idx, crosses, distance, places, j, c),
    ensures
        is_context_of_cell(idx, crosses, distance, places.push(t), k, c),
{
    let all = places.push(t);
    let i = choose|i: int|
        0 <= i <= j && finds_admin(
            idx,
            (#[trigger] places[i]).at,
            crosses,
            distance,
            Some(c),
        ) && ancestor(places[i].at.leaf, 14) == ancestor(places[j].at.leaf, 14) && forall|h: int|
            0 <= h < i ==> ancestor((#[trigger] places[h]).at.leaf, 14) != ancestor(
                places[j].at.leaf,
                14,
            );
    assert(all[i] == places[i]);
    assert forall|h: int| 0 <= h < i implies ancestor((#[trigger] all[h]).at.leaf, 14) != ancestor(
        all[k].at.leaf,
        14,
    ) by {
        assert(all[h] == places[h]);
    }
    assert(finds_admin(idx, all[i].at, crosses, distance, Some(c)));
}

proof fn lemma_one_more_place<
    F: Fn(Position, NodeCoord, NodeCoord) -> bool,
    D: Fn(Position, PlaceFeature) -> u64,
>(
    idx: BinaryIndex,
    crosses: F,
    distance: D,
    places: Seq<TargetModel>,
    contexts: Seq<ContextModel>,
    before: Map<u64, ContextModel>,
    t: TargetModel,
    c: ContextModel,
    after: Map<u64, ContextModel>,
)
    requires
        cache_is_of(idx, crosses, distance, places, contexts, before),
        cache_gives(idx, t.at, crosses, distance, before, after, Some(c)),
    ensures
        cache_is_of(idx, crosses, distance, places.push(t), contexts.push(c), after),
{
    let all = places.push(t);
    let n = places.len() as int;
    let own = ancestor(t.at.leaf, 14);
    let told = contexts.push(c);
    assert forall|j: int| 0 <= j < all.len() implies #[trigger] is_context_of_cell(
        idx,
        crosses,
        distance,
        all,
        j,
        told[j],
    ) by {
        if j < n {
            assert(is_context_of_cell(idx, crosses, distance, places, j, contexts[j]));
            lemma_context_of_more(idx, crosses, distance, places, t, j, j, contexts[j]);
        } else if before.contains_key(own) {
            let i = choose|i: int|
                0 <= i < n && ancestor((#[trigger] places[i]).at.leaf, 14) == own;
            assert(is_context_of_cell(idx, crosses, distance, places, i, contexts[i]));
            lemma_context_of_more(idx, crosses, distance, places, t, i, n, contexts[i]);
        } else {
            assert forall|h: int| 0 <= h < n implies ancestor((#[trigger] all[h]).at.leaf, 14)
                != own by {
                assert(all[h] == places[h]);
            }
            assert(finds_admin(idx, all[n].at, crosses, distance, Some(c)));
        }
    }
    assert forall|j: int| 0 <= j < all.len() implies {
        let cell = ancestor((#[trigger] all[j]).at.leaf, 14);
        after.contains_key(cell) && after[cell] == told[j]
    } by {
        if j < n {
            assert(all[j] == places[j]);
            assert(told[j] == contexts[j]);
        } else {
            assert(told[j] == c);
        }
    }
    assert forall|cell: u64| #[trigger] after.contains_key(cell) implies exists|j: int|
        0 <= j < all.len() && ancestor((#[trigger] all[j]).at.leaf, 14) == cell by {
        if before.contains_key(cell) {
            let j = choose|j: int|
                0 <= j < n && ancestor((#[trigger] places[j]).at.leaf, 14) == cell;
            assert(all[j] == places[j]);
        } else {
            assert(all[n].at.leaf == t.at.leaf);
        }
    }
}

proof fn lemma_more_places<
    F: Fn(Position, NodeCoord, NodeCoord) -> bool,
    D: Fn(Position, PlaceFeature) -> u64,
>(
    idx: BinaryIndex,
    crosses: F,
    distance: D,
    places: Seq<TargetModel>,
    contexts: Seq<ContextModel>,
    targets: Seq<TargetModel>,
    caches: Seq<Map<u64, ContextModel>>,
    more: Seq<ContextModel>,
    k: int,
)
    requires
        0 <= k <= more.len(),
        looked_up(idx, crosses, distance, targets, caches, more),
        cache_is_of(idx, crosses, distance, places, contexts, caches[0]),
    ensures
        cache_is_of(
            idx,
            crosses,
            distance,
            places + targets.take(k),
            contexts + more.take(k),
            caches[k],
        ),
    decreases k,
{
    if k == 0 {
        assert(places + targets.take(0) =~= places);
        assert(contexts + more.take(0) =~= contexts);
    } else {
        lemma_more_places(
            idx,
            crosses,
            distance,
            places,
            contexts,
            targets,
            caches,
            more,
            k - 1,
        );
        assert(cache_gives(
            idx,
            targets[k - 1].at,
            crosses,
            distance,
            caches[k - 1],
            caches[k - 1 + 1],
            Some(more[k - 1]),
        ));
        lemma_one_more_place(
            idx,
            crosses,
            distance,
            places + targets.take(k - 1),
            contexts + more.take(k - 1),
            caches[k - 1],
            targets[k - 1],
            more[k - 1],
            caches[k],
        );
        assert((places + targets.take(k - 1)).push(targets[k - 1]) =~= places + targets.take(k));
        assert((contexts + more.take(k - 1)).push(more[k - 1]) =~= contexts + more.take(k));
    }
}

proof fn lemma_listing_told<
    F: Fn(Position, NodeCoord, NodeCoord) -> bool,
    D: Fn(Position, PlaceFeature) -> u64,
>(
    idx: BinaryIndex,
    crosses: F,
    distance: D,
    places: Seq<TargetModel>,
    contexts: Seq<ContextModel>,
    targets: Seq<TargetModel>,
    before: Map<u64, ContextModel>,
    after: Map<u64, ContextModel>,
    docs: Seq<DocModel>,
) -> (more: Seq<ContextModel>)
    requires
        cache_is_of(idx, crosses, distance, places, contexts, before),
        described(idx, crosses, distance, targets, before, after, Some(docs)),
    ensures
        more.len() == targets.len(),
        docs == docs_of(targets, more),
        cache_is_of(idx, crosses, distance, places + targets, contexts + more, after),
{
    let (caches, more) = choose|
        caches: Seq<Map<u64, ContextModel>>,
        more: Seq<ContextModel>,
    | #[trigger]
        looked_up(idx, crosses, distance, targets, caches, more) && caches[0] == before
            && caches.last() == after && ends_as(
            idx,
            crosses,
            distance,
            targets,
            more,
            after,
            Some(docs),
        );
    let n = targets.len() as int;
    lemma_more_places(idx, crosses, distance, places, contexts, targets, caches, more, n);
    assert(targets.take(n) =~= targets);
    assert(more.take(n) =~= more);
    more
}

/// The places of one sort, what is said of them, and the cache behind them.
struct Told {
    places: Seq<TargetModel>,
    docs: Seq<DocModel>,
    after: Map<u64, ContextModel>,
}

proof fn lemma_three_sorts<
    C: Fn(&Vec<NodeCoord>) -> Position,
    W: Fn(Position) -> (i16, i16),
    A: Fn(PlaceFeature) -> Position,
    M: Fn(&Vec<(Position, u8)>) -> Position,
    F: Fn(Position, NodeCoord, NodeCoord) -> bool,
    D: Fn(Position, PlaceFeature) -> u64,
>(
    idx: BinaryIndex,
    centroid: C,
    whole_degrees: W,
    place_at: A,
    merge: M,
    crosses: F,
    distance: D,
    docs: Seq<DocModel>,
) -> (r: (Told, Told, Told))
    requires
        docs_found(
            idx,
            centroid,
            whole_degrees,
            place_at,
            merge,
            crosses,
            distance,
            Some(docs),
        ),
    ensures
        ({
            let (areas, features, streets) = r;
            &&& areas_listed(idx, centroid, whole_degrees, Some(areas.places))
            &&& features_listed(idx, place_at, Some(features.places))
            &&& streets_listed(idx, centroid, merge, Some(streets.places))
            &&& described(
                idx,
                crosses,
                distance,
                areas.places,
                Map::empty(),
                areas.after,
                Some(areas.docs),
            )
            &&& described(
                idx,
                crosses,
                distance,
                features.places,
                areas.after,
                features.after,
                Some(features.docs),
            )
            &&& described(
                idx,
                crosses,
                distance,
                streets.places,
                features.after,
                streets.after,
                Some(streets.docs),
            )
            &&& docs == areas.docs + features.docs + streets.docs
        }),
{
    let (after_1, areas_docs) = choose|
        after: Map<u64, ContextModel>,
        areas: Option<Seq<DocModel>>,
    | #[trigger]
        areas_indexed(
            idx,
            centroid,
            whole_degrees,
            crosses,
            distance,
            Map::empty(),
            after,
            areas,
        ) && docs_from_features(
            idx,
            centroid,
            place_at,
            merge,
            crosses,
            distance,
            after,
            areas,
            Some(docs),
        );
    let (after_2, features_docs) = choose|
        after: Map<u64, ContextModel>,
        features: Option<Seq<DocModel>>,
    | #[trigger]
        features_indexed(
            idx,
            place_at,
            crosses,
            distance,
            after_1,
            after,
            features,
        ) && docs_from_streets(
            idx,
            centroid,
            merge,
            crosses,
            distance,
            after,
            both(areas_docs, features),
            Some(docs),
        );
    let (after_3, streets_docs) = choose|
        after: Map<u64, ContextModel>,
        streets: Option<Seq<DocModel>>,
    | #[trigger]
        streets_indexed(
            idx,
            centroid,
            merge,
            crosses,
            distance,
            after_2,
            after,
            streets,
        ) && Some(docs) == both(both(areas_docs, features_docs), streets);
    let areas_list = choose|listing: Option<Seq<TargetModel>>| #[trigger]
        areas_listed(idx, centroid, whole_degrees, listing) && listing_described(
            idx,
            crosses,
            distance,
            listing,
            Map::empty(),
            after_1,
            areas_docs,
        );
    let features_list = choose|listing: Option<Seq<TargetModel>>| #[trigger]
        features_listed(idx, place_at, listing) && listing_described(
            idx,
            crosses,
            distance,
            listing,
            after_1,
            after_2,
            features_docs,
        );
    let streets_list = choose|listing: Option<Seq<TargetModel>>| #[trigger]
        streets_listed(idx, centroid, merge, listing) && listing_described(
            idx,
            crosses,
            distance,
            listing,
            after_2,
            after_3,
            streets_docs,
        );
    (
        Told { places: areas_list->0, docs: areas_docs->0, after: after_1 },
        Told { places: features_list->0, docs: features_docs->0, after: after_2 },
        Told { places: streets_list->0, docs: streets_docs->0, after: after_3 },
    )
}

/// Whether the documents are those of the places in turn, each in the context of the
/// first place in the same cell of the fourteenth level.
pub open spec fn tells_places<
    F: Fn(Position, NodeCoord, NodeCoord) -> bool,
    D: Fn(Position, PlaceFeature) -> u64,
>(
    idx: BinaryIndex,
    crosses: F,
    distance: D,
    places: Seq<TargetModel>,
    contexts: Seq<ContextModel>,
    docs: Seq<DocModel>,
) -> bool {
    &&& docs.len() == places.len()
    &&& contexts.len() == places.len()
    &&& forall|j: int|
        0 <= j < docs.len() ==> #[trigger] docs[j] == doc_of(places[j], contexts[j])
    &&& forall|j: int|
        0 <= j < docs.len() ==> #[trigger] is_context_of_cell(
            idx,
            crosses,
            distance,
            places,
            j,
            contexts[j],
        )
}

/// There is one document for each place that is listed, the areas first, then the
/// named places, then the streets, and each tells its place in the context of the
/// first place in the same cell of the fourteenth level.
pub proof fn law_every_listed_place_has_its_document<
    C: Fn(&Vec<NodeCoord>) -> Position,
    W: Fn(Position) -> (i16, i16),
    A: Fn(PlaceFeature) -> Position,
    M: Fn(&Vec<(Position, u8)>) -> Position,
    F: Fn(Position, NodeCoord, NodeCoord) -> bool,
    D: Fn(Position, PlaceFeature) -> u64,
>(
    idx: BinaryIndex,
    centroid: C,
    whole_degrees: W,
    place_at: A,
    merge: M,
    crosses: F,
    distance: D,
    docs: Seq<DocModel>,
)
    requires
        docs_found(
            idx,
            centroid,
            whole_degrees,
            place_at,
            merge,
            crosses,
            distance,
            Some(docs),
        ),
    ensures
        exists|
            areas: Seq<TargetModel>,
            features: Seq<TargetModel>,
            streets: Seq<TargetModel>,
            contexts: Seq<ContextModel>,
        |
            areas_listed(idx, centroid, whole_degrees, Some(areas)) && features_listed(
                idx,
                place_at,
                Some(features),
            ) && streets_listed(idx, centroid, merge, Some(streets)) && #[trigger] tells_places(
                idx,
                crosses,
                distance,
                areas + features + streets,
                contexts,
                docs,
            ),
{
    let (areas, features, streets) = lemma_three_sorts(
        idx,
        centroid,
        whole_degrees,
        place_at,
        merge,
        crosses,
        distance,
        docs,
    );
    let contexts = lemma_three_sorts_told(idx, crosses, distance, areas, features, streets);
    assert(tells_places(
        idx,
        crosses,
        distance,
        areas.places + features.places + streets.places,
        contexts,
        docs,
    ));
}

proof fn lemma_three_sorts_told<
    F: Fn(Position, NodeCoord, NodeCoord) -> bool,
    D: Fn(Position, PlaceFeature) -> u64,
>(
    idx: BinaryIndex,
    crosses: F,
    distance: D,
    areas: Told,
    features: Told,
    streets: Told,
) -> (contexts: Seq<ContextModel>)
    requires
        described(
            idx,
            crosses,
            distance,
            areas.places,
            Map::empty(),
            areas.after,
            Some(areas.docs),
        ),
        described(
            idx,
            crosses,
            distance,
            features.places,
            areas.after,
            features.after,
            Some(features.docs),
        ),
        described(
            idx,
            crosses,
            distance,
            streets.places,
            features.after,
            streets.after,
            Some(streets.docs),
        ),
    ensures
        tells_places(
            idx,
            crosses,
            distance,
            areas.places + features.places + streets.places,
            contexts,
            areas.docs + features.docs + streets.docs,
        ),
{
    let nothing = Seq::<TargetModel>::empty();
    let unknown = Seq::<ContextModel>::empty();
    assert(cache_is_of(idx, crosses, distance, nothing, unknown, Map::empty()));
    let c1 = lemma_listing_told(
        idx,
        crosses,
        distance,
        nothing,
        unknown,
        areas.places,
        Map::empty(),
        areas.after,
        areas.docs,
    );
    assert(nothing + areas.places =~= areas.places);
    assert(unknown + c1 =~= c1);
    let c2 = lemma_listing_told(
        idx,
        crosses,
        distance,
        areas.places,
        c1,
        features.places,
        areas.after,
        features.after,
        features.docs,
    );
    let c3 = lemma_listing_told(
        idx,
        crosses,
        distance,
        areas.places + features.places,
        c1 + c2,
        streets.places,
        features.after,
        streets.after,
        streets.docs,
    );
    let places = areas.places + features.places + streets.places;
    let contexts = c1 + c2 + c3;
    let docs = areas.docs + features.docs + streets.docs;
    assert(docs =~= docs_of(places, contexts));
    contexts
}

/// The documents cannot be put together only where the areas, the named places or
/// the streets cannot be listed, or the context of some point cannot be found.
pub proof fn law_documents_fail_only_on_malformed_tables<
    C: Fn(&Vec<NodeCoord>) -> Position,
    W: Fn(Position) -> (i16, i16),
    A: Fn(PlaceFeature) -> Position,
    M: Fn(&Vec<(Position, u8)>) -> Position,
    F: Fn(Position, NodeCoord, NodeCoord) -> bool,
    D: Fn(Position, PlaceFeature) -> u64,
>(
    idx: BinaryIndex,
    centroid: C,
    whole_degrees: W,
    place_at: A,
    merge: M,
    crosses: F,
    distance: D,
)
    requires
        docs_found(idx, centroid, whole_degrees, place_at, merge, crosses, distance, None),
    ensures
        areas_listed(idx, centroid, whole_degrees, None) || features_listed(idx, place_at, None)
            || streets_listed(idx, centroid, merge, None) || exists|p: Position| #[trigger]
            finds_admin(idx, p, crosses, distance, None),
{
    let (after_1, areas_docs) = choose|
        after: Map<u64, ContextModel>,
        areas: Option<Seq<DocModel>>,
    | #[trigger]
        areas_indexed(
            idx,
            centroid,
            whole_degrees,
            crosses,
            distance,
            Map::empty(),
            after,
            areas,
        ) && docs_from_features(
            idx,
            centroid,
            place_at,
            merge,
            crosses,
            distance,
            after,
            areas,
            None,
        );
    if areas_docs is None {
        let listing = choose|listing: Option<Seq<TargetModel>>| #[trigger]
            areas_listed(idx, centroid, whole_degrees, listing) && listing_described(
                idx,
                crosses,
                distance,
                listing,
                Map::empty(),
                after_1,
                None,
            );
        lemma_listing_failed(idx, crosses, distance, listing, Map::empty(), after_1);
    } else {
        let (after_2, features_docs) = choose|
            after: Map<u64, ContextModel>,
            features: Option<Seq<DocModel>>,
        | #[trigger]
            features_indexed(
                idx,
                place_at,
                crosses,
                distance,
                after_1,
                after,
                features,
            ) && docs_from_streets(
                idx,
                centroid,
                merge,
                crosses,
                distance,
                after,
                both(areas_docs, features),
                None,
            );
        if features_docs is None {
            let listing = choose|listing: Option<Seq<TargetModel>>| #[trigger]
                features_listed(idx, place_at, listing) && listing_described(
                    idx,
                    crosses,
                    distance,
                    listing,
                    after_1,
                    after_2,
                    None,
                );
            lemma_listing_failed(idx, crosses, distance, listing, after_1, after_2);
        } else {
            let (after_3, streets_docs) = choose|
                after: Map<u64, ContextModel>,
                streets: Option<Seq<DocModel>>,
            | #[trigger]
                streets_indexed(
                    idx,
                    centroid,
                    merge,
                    crosses,
                    distance,
                    after_2,
                    after,
                    streets,
                ) && None::<Seq<DocModel>> == both(both(areas_docs, features_docs), streets);
            let listing = choose|listing: Option<Seq<TargetModel>>| #[trigger]
                streets_listed(idx, centroid, merge, listing) && listing_described(
                    idx,
                    crosses,
                    distance,
                    listing,
                    after_2,
                    after_3,
                    None,
                );
            lemma_listing_failed(idx, crosses, distance, listing, after_2, after_3);
        }
    }
}

proof fn lemma_listing_failed<
    F: Fn(Position, NodeCoord, NodeCoord) -> bool,
    D: Fn(Position, PlaceFeature) -> u64,
>(
    idx: BinaryIndex,
    crosses: F,
    distance: D,
    listing: Option<Seq<TargetModel>>,
    before: Map<u64, ContextModel>,
    after: Map<u64, ContextModel>,
)
    requires
        listing_described(idx, crosses, distance, listing, before, after, None),
    ensures
        listing is None || exists|p: Position| #[trigger]
            finds_admin(idx, p, crosses, distance, None),
{
    if let Some(targets) = listing {
        let (caches, contexts) = choose|
            caches: Seq<Map<u64, ContextModel>>,
            contexts: Seq<ContextModel>,
        | #[trigger]
            looked_up(idx, crosses, distance, targets, caches, contexts) && caches[0] == before
                && caches.last() == after && ends_as(
                idx,
                crosses,
                distance,
                targets,
                contexts,
                after,
                None,
            );
        let p = targets[contexts.len() as int].at;
        assert(finds_admin(idx, p, crosses, distance, None));
    }
}

} // verus!
