//! The full-text engine: the parts of `tantivy` that the search stands on, and
//! what is taken on trust of each.
use tantivy::collector::TopDocs;
use tantivy::query::{BooleanQuery, FuzzyTermQuery, Occur, Query, TermQuery};
use tantivy::schema::{
    Field, IndexRecordOption, Schema, SchemaBuilder, Value, FAST, STORED, STRING, TEXT,
};
use tantivy::{
    DocAddress, Index, IndexReader, IndexWriter, ReloadPolicy, Score, TantivyDocument,
    TantivyError, Term,
};
use vstd::multiset::Multiset;
use vstd::prelude::*;

verus! {

// --- Schemas ---

#[verifier::external_type_specification]
#[verifier::external_body]
pub struct ExSchemaBuilder(tantivy::schema::SchemaBuilder);

#[verifier::external_type_specification]
#[verifier::external_body]
pub struct ExSchema(tantivy::schema::Schema);

/// How a field is kept.
pub enum FieldShape {
    /// Text, found by its words.
    Words { stored: bool },
    /// Text, found as a whole.
    Whole { stored: bool },
    /// A double-precision number in a column.
    Number { stored: bool },
}

/// A field of a schema.
pub struct FieldModel {
    pub name: Seq<char>,
    pub shape: FieldShape,
}

/// Whether a field of this name is among the fields.
pub open spec fn has_field(fields: Seq<FieldModel>, name: Seq<char>) -> bool {
    exists|i: int| 0 <= i < fields.len() && (#[trigger] fields[i]).name == name
}

/// Whether `tantivy` takes a text as the name of a field: it has a character,
/// and the first is no dash.
pub open spec fn is_field_name(name: Seq<char>) -> bool {
    name.len() > 0 && name[0] != '-'
}

/// The fields that a builder has been given, in order.
pub uninterp spec fn builder_fields(b: SchemaBuilder) -> Seq<FieldModel>;

/// The fields of a schema, in order.
pub uninterp spec fn schema_fields(s: Schema) -> Seq<FieldModel>;

/// `tantivy::schema::Schema::builder`: a builder without fields.
#[verifier::external_body]
pub(crate) fn schema_builder() -> (r: SchemaBuilder)
    ensures
        builder_fields(r) == Seq::<FieldModel>::empty(),
{
    Schema::builder()
}

/// `tantivy::schema::SchemaBuilder::add_text_field` with `TEXT | STORED`: adds
/// a stored field at the end and returns its place.
#[verifier::external_body]
pub(crate) fn add_stored_words_field(b: &mut SchemaBuilder, name: &str) -> (r: u32)
    requires
        is_field_name(name@),
        !has_field(builder_fields(*old(b)), name@),
        builder_fields(*old(b)).len() < u32::MAX,
    ensures
        r == builder_fields(*old(b)).len(),
        builder_fields(*final(b)) == builder_fields(*old(b)).push(
            (FieldModel { name: name@, shape: FieldShape::Words { stored: true } }),
        ),
{
    b.add_text_field(name, TEXT | STORED).field_id()
}

/// `tantivy::schema::SchemaBuilder::add_text_field` with `TEXT`: adds a field
/// at the end and returns its place.
#[verifier::external_body]
pub(crate) fn add_words_field(b: &mut SchemaBuilder, name: &str) -> (r: u32)
    requires
        is_field_name(name@),
        !has_field(builder_fields(*old(b)), name@),
        builder_fields(*old(b)).len() < u32::MAX,
    ensures
        r == builder_fields(*old(b)).len(),
        builder_fields(*final(b)) == builder_fields(*old(b)).push(
            (FieldModel { name: name@, shape: FieldShape::Words { stored: false } }),
        ),
{
    b.add_text_field(name, TEXT).field_id()
}

/// `tantivy::schema::SchemaBuilder::add_text_field` with `STRING | STORED`:
/// adds a stored field that is not split into words, and returns its place.
#[verifier::external_body]
pub(crate) fn add_stored_whole_field(b: &mut SchemaBuilder, name: &str) -> (r: u32)
    requires
        is_field_name(name@),
        !has_field(builder_fields(*old(b)), name@),
        builder_fields(*old(b)).len() < u32::MAX,
    ensures
        r == builder_fields(*old(b)).len(),
        builder_fields(*final(b)) == builder_fields(*old(b)).push(
            (FieldModel { name: name@, shape: FieldShape::Whole { stored: true } }),
        ),
{
    b.add_text_field(name, STRING | STORED).field_id()
}

/// `tantivy::schema::SchemaBuilder::add_f64_field` with `STORED | FAST`: adds a
/// stored column of numbers at the end and returns its place.
#[verifier::external_body]
pub(crate) fn add_stored_number_field(b: &mut SchemaBuilder, name: &str) -> (r: u32)
    requires
        is_field_name(name@),
        !has_field(builder_fields(*old(b)), name@),
        builder_fields(*old(b)).len() < u32::MAX,
    ensures
        r == builder_fields(*old(b)).len(),
        builder_fields(*final(b)) == builder_fields(*old(b)).push(
            (FieldModel { name: name@, shape: FieldShape::Number { stored: true } }),
        ),
{
    b.add_f64_field(name, STORED | FAST).field_id()
}

/// `tantivy::schema::SchemaBuilder::add_f64_field` with `FAST`: adds a column
/// of numbers at the end and returns its place.
#[verifier::external_body]
pub(crate) fn add_number_field(b: &mut SchemaBuilder, name: &str) -> (r: u32)
    requires
        is_field_name(name@),
        !has_field(builder_fields(*old(b)), name@),
        builder_fields(*old(b)).len() < u32::MAX,
    ensures
        r == builder_fields(*old(b)).len(),
        builder_fields(*final(b)) == builder_fields(*old(b)).push(
            (FieldModel { name: name@, shape: FieldShape::Number { stored: false } }),
        ),
{
    b.add_f64_field(name, FAST).field_id()
}

/// `tantivy::schema::SchemaBuilder::build`: a schema of the builder's fields.
#[verifier::external_body]
pub(crate) fn build(b: SchemaBuilder) -> (r: Schema)
    ensures
        schema_fields(r) == builder_fields(b),
{
    b.build()
}

// --- Documents ---

#[verifier::external_type_specification]
#[verifier::external_body]
pub struct ExTantivyDocument(tantivy::TantivyDocument);

/// A value of a document.
pub enum DocValue {
    Text(Seq<char>),
    /// The double-precision pattern of a number.
    Number(u64),
    Other,
}

/// The values of a document, each with its field, in order.
pub uninterp spec fn doc_values(doc: TantivyDocument) -> Seq<(u32, DocValue)>;

/// The number that `tantivy` orders as `v`: upwards from the highest bit on it
/// is the pattern of a positive number, below it the inverse of a negative
/// one's.
pub open spec fn from_ordered(v: u64) -> u64 {
    if v >= 0x8000_0000_0000_0000 {
        (v - 0x8000_0000_0000_0000) as u64
    } else {
        (0xFFFF_FFFF_FFFF_FFFF - v) as u64
    }
}

/// The place of a double-precision pattern in the order of `tantivy`.
pub(crate) fn to_ordered(bits: u64) -> (r: u64)
    ensures
        from_ordered(r) == bits,
{
    if bits >= 0x8000_0000_0000_0000 {
        0xFFFF_FFFF_FFFF_FFFF - bits
    } else {
        bits + 0x8000_0000_0000_0000
    }
}

/// `tantivy::TantivyDocument::new`: a document without values.
#[verifier::external_body]
pub(crate) fn new_doc() -> (r: TantivyDocument)
    ensures
        doc_values(r) == Seq::<(u32, DocValue)>::empty(),
{
    TantivyDocument::new()
}

/// `tantivy::TantivyDocument::add_text`: adds a text at the end.
#[verifier::external_body]
pub(crate) fn add_text(doc: &mut TantivyDocument, field: u32, text: &str)
    ensures
        doc_values(*final(doc)) == doc_values(*old(doc)).push((field, DocValue::Text(text@))),
{
    doc.add_text(Field::from_field_id(field), text)
}

/// `tantivy::TantivyDocument::add_f64`: adds a number at the end. The number is
/// handed over through `tantivy::u64_to_f64`, which undoes the mapping of
/// numbers to ordered integers.
#[verifier::external_body]
pub(crate) fn add_number(doc: &mut TantivyDocument, field: u32, ordered: u64)
    ensures
        doc_values(*final(doc)) == doc_values(*old(doc)).push(
            (field, DocValue::Number(from_ordered(ordered))),
        ),
{
    doc.add_f64(Field::from_field_id(field), tantivy::u64_to_f64(ordered))
}

/// The first value of a field.
pub open spec fn first_value(values: Seq<(u32, DocValue)>, field: u32) -> Option<DocValue>
    decreases values.len(),
{
    if values.len() == 0 {
        None
    } else {
        let (f, v) = values[0];
        if f == field {
            Some(v)
        } else {
            first_value(values.drop_first(), field)
        }
    }
}

/// The first value of a field, where it is a text.
pub open spec fn text_value(values: Seq<(u32, DocValue)>, field: u32) -> Option<Seq<char>> {
    match first_value(values, field) {
        Some(DocValue::Text(t)) => Some(t),
        _ => None,
    }
}

/// The first value of a field, where it is a number.
pub open spec fn number_value(values: Seq<(u32, DocValue)>, field: u32) -> Option<u64> {
    match first_value(values, field) {
        Some(DocValue::Number(n)) => Some(n),
        _ => None,
    }
}

/// `tantivy::TantivyDocument::get_first` and `tantivy::schema::Value::as_str`:
/// the first value of a field, where it is a text.
#[verifier::external_body]
pub(crate) fn first_text(doc: &TantivyDocument, field: u32) -> (r: Option<String>)
    ensures
        crate::text::option_view(r) == text_value(doc_values(*doc), field),
{
    Some(doc.get_first(Field::from_field_id(field))?.as_str()?.to_string())
}

/// `tantivy::TantivyDocument::get_first` and `tantivy::schema::Value::as_f64`:
/// the pattern of the first value of a field, where it is a number.
#[verifier::external_body]
pub(crate) fn first_number(doc: &TantivyDocument, field: u32) -> (r: Option<u64>)
    ensures
        r == number_value(doc_values(*doc), field),
{
    Some(doc.get_first(Field::from_field_id(field))?.as_f64()?.to_bits())
}

// --- Indexes ---

#[verifier::external_type_specification]
#[verifier::external_body]
pub struct ExIndex(tantivy::Index);

#[verifier::external_type_specification]
#[verifier::external_body]
pub struct ExTantivyError(tantivy::TantivyError);

/// The fields of an index, in order.
pub uninterp spec fn index_fields(index: Index) -> Seq<FieldModel>;

/// The documents that were published in an index.
pub uninterp spec fn index_docs(index: Index) -> Multiset<Seq<(u32, DocValue)>>;

/// A writer of an index.
#[verifier::external_body]
pub struct Writer {
    inner: IndexWriter<TantivyDocument>,
}

/// The fields of the index that a writer writes to.
pub uninterp spec fn writer_fields(writer: Writer) -> Seq<FieldModel>;

/// The documents that a writer has taken in, in order.
pub uninterp spec fn handed_in(writer: Writer) -> Seq<Seq<(u32, DocValue)>>;

/// Whether a call of the writer has found a worker of it dead.
pub uninterp spec fn is_broken(writer: Writer) -> bool;

/// `tantivy::Index::create_in_ram`: an index with the fields of the schema and
/// without documents.
#[verifier::external_body]
pub(crate) fn create_in_ram(schema: &Schema) -> (r: Index)
    ensures
        index_fields(r) == schema_fields(*schema),
        index_docs(r) == Multiset::<Seq<(u32, DocValue)>>::empty(),
{
    Index::create_in_ram(schema.clone())
}

/// `tantivy::Index::writer`, of an index without documents: a writer that has
/// taken in nothing. It refuses a budget of less than 15,000,000 bytes. Whether a
/// writer can be had with more depends on the machine.
#[verifier::external_body]
pub(crate) fn open_writer(index: Index, memory_budget: usize) -> (r: Result<Writer, TantivyError>)
    requires
        index_docs(index) == Multiset::<Seq<(u32, DocValue)>>::empty(),
        15_000_000 <= memory_budget,
    ensures
        r is Ok ==> writer_fields(r->Ok_0) == index_fields(index),
        r is Ok ==> handed_in(r->Ok_0) == Seq::<Seq<(u32, DocValue)>>::empty(),
{
    Ok(Writer { inner: index.writer(memory_budget)? })
}

/// `tantivy::IndexWriter::add_document`: takes the document in, or fails and
/// takes in nothing. It fails only where a worker of the writer has died, which
/// no later call mends. Whether one dies depends on the machine.
#[verifier::external_body]
pub(crate) fn add_document(writer: &mut Writer, doc: TantivyDocument) -> (r: Result<
    u64,
    TantivyError,
>)
    ensures
        writer_fields(*final(writer)) == writer_fields(*old(writer)),
        handed_in(*final(writer)) == match r {
            Ok(_) => handed_in(*old(writer)).push(doc_values(doc)),
            Err(_) => handed_in(*old(writer)),
        },
        is_broken(*old(writer)) ==> is_broken(*final(writer)),
        r is Err ==> is_broken(*final(writer)),
{
    writer.inner.add_document(doc)
}

/// `tantivy::IndexWriter::commit`, then `tantivy::IndexWriter::index`:
/// publishes what the writer has taken in, and gives the index. It waits for all
/// workers, and fails where one of them has died; what else it fails on depends
/// on the machine.
#[verifier::external_body]
pub(crate) fn commit(writer: Writer) -> (r: Result<Index, TantivyError>)
    ensures
        r is Ok ==> index_fields(r->Ok_0) == writer_fields(writer),
        r is Ok ==> index_docs(r->Ok_0) == handed_in(writer).to_multiset(),
        is_broken(writer) ==> r is Err,
{
    let mut inner = writer.inner;
    inner.commit()?;
    Ok(inner.index().clone())
}

// --- Searching ---

#[verifier::external_type_specification]
#[verifier::external_body]
pub struct ExIndexReader(tantivy::IndexReader);

#[verifier::external_type_specification]
#[verifier::external_body]
pub struct ExBooleanQuery(tantivy::query::BooleanQuery);

/// One way in which a document can match.
pub enum Clause {
    /// A word of the field is the text.
    Exact { field: u32, text: Seq<char> },
    /// A word of the field is within some edits of the text.
    Near { field: u32, text: Seq<char>, distance: u8, transpositions: bool },
}

impl Clause {
    /// The field that the clause looks at.
    pub open spec fn field(self) -> u32 {
        match self {
            Clause::Exact { field, .. } => field,
            Clause::Near { field, .. } => field,
        }
    }
}

/// Clauses of a query in the making, of which a document has to match one.
#[verifier::external_body]
pub struct ClauseList {
    inner: Vec<(Occur, Box<dyn Query>)>,
}

/// The clauses in a list, in order.
pub uninterp spec fn listed_clauses(list: ClauseList) -> Seq<Clause>;

/// The clauses of a query, in order.
pub uninterp spec fn query_clauses(query: BooleanQuery) -> Seq<Clause>;

/// The fields of the index that a reader reads, in order.
pub uninterp spec fn reader_fields(reader: IndexReader) -> Seq<FieldModel>;

/// The documents that a reader holds.
pub uninterp spec fn reader_docs(reader: IndexReader) -> Multiset<Seq<(u32, DocValue)>>;

/// `Vec::new` of the clauses that `tantivy::query::BooleanQuery` is made of.
#[verifier::external_body]
pub(crate) fn no_clauses() -> (r: ClauseList)
    ensures
        listed_clauses(r) == Seq::<Clause>::empty(),
{
    ClauseList { inner: Vec::new() }
}

/// `tantivy::query::TermQuery::new`, for a text of a field, as a clause at the
/// end that need not match.
#[verifier::external_body]
pub(crate) fn push_exact(list: &mut ClauseList, field: u32, text: &str)
    ensures
        listed_clauses(*final(list)) == listed_clauses(*old(list)).push(
            (Clause::Exact { field, text: text@ }),
        ),
{
    let term = Term::from_field_text(Field::from_field_id(field), text);
    let query = TermQuery::new(term, IndexRecordOption::WithFreqs);
    list.inner.push((Occur::Should, Box::new(query)))
}

/// `tantivy::query::FuzzyTermQuery::new`, for a text of a field, as a clause at
/// the end that need not match.
#[verifier::external_body]
pub(crate) fn push_near(
    list: &mut ClauseList,
    field: u32,
    text: &str,
    distance: u8,
    transpositions: bool,
)
    ensures
        listed_clauses(*final(list)) == listed_clauses(*old(list)).push(
            (Clause::Near { field, text: text@, distance, transpositions }),
        ),
{
    let term = Term::from_field_text(Field::from_field_id(field), text);
    let query = FuzzyTermQuery::new(term, distance, transpositions);
    list.inner.push((Occur::Should, Box::new(query)))
}

/// `tantivy::query::BooleanQuery::new`: a query of the clauses.
#[verifier::external_body]
pub(crate) fn boolean_query(list: ClauseList) -> (r: BooleanQuery)
    ensures
        query_clauses(r) == listed_clauses(list),
{
    BooleanQuery::new(list.inner)
}

/// `tantivy::Index::reader_builder`, for a reader that is never reloaded: it
/// holds the documents that were published in the index. Whether one can be had
/// depends on the machine.
#[verifier::external_body]
pub(crate) fn open_reader(index: &Index) -> (r: Result<IndexReader, TantivyError>)
    ensures
        r is Ok ==> reader_fields(r->Ok_0) == index_fields(*index),
        r is Ok ==> reader_docs(r->Ok_0) == index_docs(*index),
{
    index.reader_builder().reload_policy(ReloadPolicy::Manual).try_into()
}

/// A document that a search found.
pub struct Hit {
    /// The single-precision pattern of the engine's score.
    pub score: u32,
    /// The stored values, where they could be read.
    pub doc: Option<TantivyDocument>,
}

/// A document that a search found: its score, and its stored values, where
/// they could be read.
pub struct HitModel {
    pub score: u32,
    pub values: Option<Seq<(u32, DocValue)>>,
}

impl View for Hit {
    type V = HitModel;

    open spec fn view(&self) -> HitModel {
        HitModel {
            score: self.score,
            values: match self.doc {
                Some(doc) => Some(doc_values(doc)),
                None => None,
            },
        }
    }
}

/// The documents that a search found.
pub open spec fn hit_views(hits: Seq<Hit>) -> Seq<HitModel> {
    hits.map_values(|h: Hit| h@)
}

/// Whether a value stands in what the engine gives back of a document.
pub open spec fn is_stored(fields: Seq<FieldModel>, value: (u32, DocValue)) -> bool {
    let (field, _) = value;
    match fields[field as int].shape {
        FieldShape::Words { stored } => stored,
        FieldShape::Whole { stored } => stored,
        FieldShape::Number { stored } => stored,
    }
}

/// The values of a document that are in stored fields.
pub open spec fn stored_part(
    fields: Seq<FieldModel>,
    values: Seq<(u32, DocValue)>,
) -> Seq<(u32, DocValue)> {
    values.filter(|v: (u32, DocValue)| is_stored(fields, v))
}

/// Whether `back` is what the engine gives back of a document: the stored part
/// of it, with its texts and numbers.
pub open spec fn gives_back(
    fields: Seq<FieldModel>,
    values: Seq<(u32, DocValue)>,
    back: Seq<(u32, DocValue)>,
) -> bool {
    let part = stored_part(fields, values);
    &&& back.len() == part.len()
    &&& forall|i: int|
        0 <= i < part.len() ==> {
            let (field, value) = #[trigger] part[i];
            let (back_field, back_value) = back[i];
            back_field == field && (value is Other || back_value == value)
        }
}

/// Whether a found document, as far as it could be read, is one of `docs`.
pub open spec fn is_one_of(
    fields: Seq<FieldModel>,
    docs: Multiset<Seq<(u32, DocValue)>>,
    hit: HitModel,
) -> bool {
    match hit.values {
        None => true,
        Some(back) => exists|values: Seq<(u32, DocValue)>| #[trigger]
            docs.contains(values) && gives_back(fields, values, back),
    }
}

/// The documents that a reader holds which match a query best, best first, at
/// most `limit`, each with its score.
pub uninterp spec fn best_hits(reader: IndexReader, clauses: Seq<Clause>, limit: int) -> Seq<
    HitModel,
>;

/// `tantivy::Searcher::search` with `tantivy::collector::TopDocs`, then
/// `tantivy::Searcher::doc`: the best documents for the query, at most `limit`.
/// They follow from the reader, the query and the limit, and what is given back
/// of each is the stored part of a document that the reader holds; which they
/// are and what scores they have is not stated. Every clause has to look at a
/// field of the index, and the limit has to be one that the engine can reserve
/// room for.
#[verifier::external_body]
pub(crate) fn search(reader: &IndexReader, query: &BooleanQuery, limit: usize) -> (r: Result<
    Vec<Hit>,
    TantivyError,
>)
    requires
        0 < limit <= usize::MAX / 2048,
        forall|i: int|
            0 <= i < query_clauses(*query).len() ==> (#[trigger] query_clauses(*query)[i]).field()
                < reader_fields(*reader).len(),
    ensures
        r is Ok ==> r->Ok_0@.len() <= limit,
        r is Ok ==> hit_views(r->Ok_0@) == best_hits(
            *reader,
            query_clauses(*query),
            limit as int,
        ),
        r is Ok ==> forall|i: int|
            0 <= i < r->Ok_0@.len() ==> is_one_of(
                reader_fields(*reader),
                reader_docs(*reader),
                (#[trigger] r->Ok_0@[i])@,
            ),
{
    let searcher = reader.searcher();
    let top = searcher.search(query, &TopDocs::with_limit(limit))?;
    let fetch = |(score, at): (Score, DocAddress)| {
        Hit { score: score.to_bits(), doc: searcher.doc(at).ok() }
    };
    Ok(top.into_iter().map(fetch).collect())
}

} // verus!
