//! The full-text index of the lines of a text: every line is stored with its
//! line number, and a search finds the lines holding a word within two
//! edits of a lowercased word of the search text.
//!
//! The index is tantivy's. Its objects are opaque here: the items below that
//! call tantivy state, over names for their contents, what tantivy's source
//! shows of the schema, the analyzer, the documents built, added, committed
//! and read back, and which documents a query matches. The order in which a
//! search returns the lines it finds is tantivy's ranking and is not stated.
use crate::score::{count_tokens, lemma_count_tokens_all, lemma_count_tokens_weaker};
use crate::text::{
    byte_len, chars_of, lowercase, split_whitespace, split_whitespace_exec, string_from_chars,
    to_lowercase, words_view,
};
use tantivy::collector::TopDocs;
use tantivy::query::{BooleanQuery, FuzzyTermQuery, Query};
use tantivy::schema::{
    Field, IndexRecordOption, Schema, SchemaBuilder, TextFieldIndexing, TextOptions, Value,
    STORED,
};
use tantivy::tokenizer::{LowerCaser, SimpleTokenizer, TextAnalyzer};
use tantivy::{DocAddress, Index, IndexWriter, Searcher, TantivyDocument, TantivyError, Term};
use vstd::prelude::*;

verus! {

/// `SchemaBuilder`, opaque here.
#[verifier::external_type_specification]
#[verifier::external_body]
pub struct ExSchemaBuilder(SchemaBuilder);

/// `Schema`, opaque here.
#[verifier::external_type_specification]
#[verifier::external_body]
pub struct ExSchema(Schema);

/// `TextFieldIndexing`, opaque here.
#[verifier::external_type_specification]
#[verifier::external_body]
pub struct ExTextFieldIndexing(TextFieldIndexing);

/// `TextOptions`, opaque here.
#[verifier::external_type_specification]
#[verifier::external_body]
pub struct ExTextOptions(TextOptions);

/// `Index`, opaque here.
#[verifier::external_type_specification]
#[verifier::external_body]
pub struct ExIndex(Index);

/// `TextAnalyzer`, opaque here.
#[verifier::external_type_specification]
#[verifier::external_body]
pub struct ExTextAnalyzer(TextAnalyzer);

/// A tantivy `Index` with its `IndexWriter`, through which lines are added
/// and committed. Its contents are known by the names `writer_docs`,
/// `committed_docs`, `writer_fields` and `writer_analyzers`.
#[verifier::external_body]
pub struct LineWriter {
    index: Index,
    writer: IndexWriter,
}

/// `TantivyError`, opaque here.
#[verifier::external_type_specification]
#[verifier::external_body]
pub struct ExTantivyError(TantivyError);

/// `TantivyDocument`, opaque here.
#[verifier::external_type_specification]
#[verifier::external_body]
pub struct ExTantivyDocument(TantivyDocument);

/// `Searcher`, opaque here.
#[verifier::external_type_specification]
#[verifier::external_body]
pub struct ExSearcher(Searcher);

/// `Term`, opaque here.
#[verifier::external_type_specification]
#[verifier::external_body]
pub struct ExTerm(Term);

/// `FuzzyTermQuery`, opaque here.
#[verifier::external_type_specification]
#[verifier::external_body]
pub struct ExFuzzyTermQuery(FuzzyTermQuery);

/// `BooleanQuery`, opaque here.
#[verifier::external_type_specification]
#[verifier::external_body]
pub struct ExBooleanQuery(BooleanQuery);

/// What a term holds: the id of its field and its text.
pub uninterp spec fn term_parts(term: Term) -> (u32, Seq<char>);

/// `Term::from_field_text`: the term `text` of the field with id `field`.
#[verifier::external_body]
fn field_term(field: u32, text: &str) -> (r: Term)
    ensures
        term_parts(r) == (field, text@),
{
    Term::from_field_text(Field::from_field_id(field), text)
}

/// What a fuzzy term query holds: its term, the edit distance, whether a
/// transposition costs one edit, and whether it matches term prefixes.
pub type FuzzyParts = ((u32, Seq<char>), u8, bool, bool);

/// What a fuzzy term query holds, as `FuzzyParts`.
pub uninterp spec fn fuzzy_parts(query: FuzzyTermQuery) -> FuzzyParts;

/// `FuzzyTermQuery::new`: matches the terms within `distance` edits of
/// `term`, not as a prefix; a transposition counts as one edit when
/// `transposition_cost_one`.
#[verifier::external_body]
fn fuzzy_term_query(term: Term, distance: u8, transposition_cost_one: bool) -> (r:
    FuzzyTermQuery)
    ensures
        fuzzy_parts(r) == (term_parts(term), distance, transposition_cost_one, false),
{
    FuzzyTermQuery::new(term, distance, transposition_cost_one)
}

/// The clauses of a boolean query built by `BooleanQuery::union` from fuzzy
/// term queries: those queries, in order, each a `Should` clause.
pub uninterp spec fn union_clauses(query: BooleanQuery) -> Seq<FuzzyParts>;

/// `BooleanQuery::union`: matches what any of the queries matches; its
/// clauses are the queries, in order, each a `Should` clause.
#[verifier::external_body]
fn union_query(queries: Vec<FuzzyTermQuery>) -> (r: BooleanQuery)
    ensures
        union_clauses(r) == queries@.map_values(|q: FuzzyTermQuery| fuzzy_parts(q)),
{
    BooleanQuery::union(queries.into_iter().map(|q| Box::new(q) as Box<dyn Query>).collect())
}


/// What a field of a schema is: its name, whether it holds text, how it is
/// indexed (the tokenizer's name, and whether term frequencies and positions
/// are recorded; none when it is not indexed), and whether its values are
/// stored.
pub type FieldEntry = (Seq<char>, bool, Option<(Seq<char>, bool)>, bool);

/// A field named `name` is among `fields`.
pub open spec fn has_field_named(fields: Seq<FieldEntry>, name: Seq<char>) -> bool {
    exists|i: int| 0 <= i < fields.len() && #[trigger] fields[i].0 == name
}

/// The fields added to a schema builder, in order; a field's id is its
/// index here.
pub uninterp spec fn builder_fields(builder: SchemaBuilder) -> Seq<FieldEntry>;

/// `Schema::builder`: a schema builder with no field.
#[verifier::external_body]
fn schema_builder() -> (r: SchemaBuilder)
    ensures
        builder_fields(r) == Seq::<FieldEntry>::empty(),
{
    Schema::builder()
}

/// What text-field indexing options say: the tokenizer's name, and whether
/// term frequencies and positions are recorded.
pub uninterp spec fn indexing_parts(indexing: TextFieldIndexing) -> (Seq<char>, bool);

/// `TextFieldIndexing::default`: the tokenizer named `default`, recording
/// the documents of a term only.
#[verifier::external_body]
fn text_indexing() -> (r: TextFieldIndexing)
    ensures
        indexing_parts(r) == ("default"@, false),
{
    TextFieldIndexing::default()
}

/// `TextFieldIndexing::set_tokenizer`: the options, tokenized with the
/// tokenizer registered under `name`.
#[verifier::external_body]
fn with_tokenizer(indexing: TextFieldIndexing, name: &str) -> (r: TextFieldIndexing)
    ensures
        indexing_parts(r) == (name@, indexing_parts(indexing).1),
{
    indexing.set_tokenizer(name)
}

/// `TextFieldIndexing::set_index_option`: the options, recording term
/// frequencies and positions.
#[verifier::external_body]
fn with_frequencies_and_positions(indexing: TextFieldIndexing) -> (r: TextFieldIndexing)
    ensures
        indexing_parts(r) == (indexing_parts(indexing).0, true),
{
    indexing.set_index_option(IndexRecordOption::WithFreqsAndPositions)
}

/// What text-field options say: how the text is indexed (none when it is
/// not), and whether it is stored.
pub uninterp spec fn options_parts(options: TextOptions) -> (Option<(Seq<char>, bool)>, bool);

/// `TextOptions::default`: neither indexed nor stored.
#[verifier::external_body]
fn text_options() -> (r: TextOptions)
    ensures
        options_parts(r) == (None::<(Seq<char>, bool)>, false),
{
    TextOptions::default()
}

/// `TextOptions::set_indexing_options`: the options, indexed as `indexing`
/// says.
#[verifier::external_body]
fn with_indexing(options: TextOptions, indexing: TextFieldIndexing) -> (r: TextOptions)
    ensures
        options_parts(r) == (Some(indexing_parts(indexing)), options_parts(options).1),
{
    options.set_indexing_options(indexing)
}

/// `TextOptions::set_stored`: the options, with the value stored.
#[verifier::external_body]
fn with_stored(options: TextOptions) -> (r: TextOptions)
    ensures
        options_parts(r) == (options_parts(options).0, true),
{
    options.set_stored()
}

/// A name tantivy accepts for a field: not empty, and not starting with
/// `-`.
pub open spec fn is_valid_field_name(name: Seq<char>) -> bool {
    name.len() > 0 && name[0] != '-'
}

/// `SchemaBuilder::add_text_field`: adds a text field named `name` with the
/// given options and gives its id, the number of fields added before it.
/// It panics when a field of that name exists, or when the name is not a
/// valid field name.
#[verifier::external_body]
fn add_text_field(builder: &mut SchemaBuilder, name: &str, options: TextOptions) -> (r: u32)
    requires
        is_valid_field_name(name@),
        !has_field_named(builder_fields(*old(builder)), name@),
    ensures
        r == builder_fields(*old(builder)).len(),
        builder_fields(*final(builder)) == builder_fields(*old(builder)).push(
            (name@, true, options_parts(options).0, options_parts(options).1),
        ),
{
    builder.add_text_field(name, options).field_id()
}

/// `SchemaBuilder::add_u64_field` with `STORED`: adds a stored, unindexed
/// `u64` field named `name` and gives its id, the number of fields added
/// before it. It panics when a field of that name exists, or when the name
/// is not a valid field name.
#[verifier::external_body]
fn add_stored_u64_field(builder: &mut SchemaBuilder, name: &str) -> (r: u32)
    requires
        is_valid_field_name(name@),
        !has_field_named(builder_fields(*old(builder)), name@),
    ensures
        r == builder_fields(*old(builder)).len(),
        builder_fields(*final(builder)) == builder_fields(*old(builder)).push(
            (name@, false, None, true),
        ),
{
    builder.add_u64_field(name, STORED).field_id()
}

/// The fields of a schema, in order of their ids.
pub uninterp spec fn schema_fields(schema: Schema) -> Seq<FieldEntry>;

/// `SchemaBuilder::build`: the schema of the fields added.
#[verifier::external_body]
fn build_schema(builder: SchemaBuilder) -> (r: Schema)
    ensures
        schema_fields(r) == builder_fields(builder),
{
    builder.build()
}

/// The values of a document: for each value in the order of the
/// document, its field id, and the text when it is a text, the number when
/// it is a `u64`.
pub type DocValues = Seq<(u32, Option<Seq<char>>, Option<u64>)>;

/// The fields of an index's schema.
pub uninterp spec fn index_fields(index: Index) -> Seq<FieldEntry>;

/// The tokenizers registered with an index, by name, each with whether it
/// is the lowercasing analyzer that `lowercase_analyzer` builds.
pub uninterp spec fn index_analyzers(index: Index) -> Map<Seq<char>, bool>;

/// The committed documents of an index.
pub uninterp spec fn index_docs(index: Index) -> Seq<DocValues>;

/// `Index::create_in_ram`: a new index in memory with the schema's fields,
/// holding no document.
#[verifier::external_body]
fn create_in_ram(schema: Schema) -> (r: Index)
    ensures
        index_fields(r) == schema_fields(schema),
        index_docs(r) == Seq::<DocValues>::empty(),
{
    Index::create_in_ram(schema)
}

/// Whether an analyzer is tantivy's `SimpleTokenizer` (which splits text
/// into its runs of alphanumeric chars) followed by `LowerCaser` (which
/// lowercases each token).
pub uninterp spec fn is_lowercasing(analyzer: TextAnalyzer) -> bool;

/// `TextAnalyzer::builder(SimpleTokenizer).filter(LowerCaser).build()`: the
/// analyzer that splits text into its alphanumeric runs and lowercases
/// them, built in one chain of builder calls.
#[verifier::external_body]
fn lowercase_analyzer() -> (r: TextAnalyzer)
    ensures
        is_lowercasing(r),
{
    TextAnalyzer::builder(SimpleTokenizer::default()).filter(LowerCaser).build()
}

/// `TokenizerManager::register` on `Index::tokenizers`: registers
/// `analyzer` with the index under `name`. The index keeps its fields and
/// documents.
#[verifier::external_body]
fn register_tokenizer(index: &mut Index, name: &str, analyzer: TextAnalyzer)
    ensures
        index_analyzers(*final(index)) == index_analyzers(*old(index)).insert(
            name@,
            is_lowercasing(analyzer),
        ),
        index_fields(*final(index)) == index_fields(*old(index)),
        index_docs(*final(index)) == index_docs(*old(index)),
{
    index.tokenizers().register(name, analyzer)
}

/// The documents added to the index held by a `LineWriter`: those it held
/// when the writer was made, then those added through the writer, in
/// order.
pub uninterp spec fn writer_docs(writer: LineWriter) -> Seq<DocValues>;

/// The documents of the index held by a `LineWriter` that are committed,
/// and so searchable.
pub uninterp spec fn committed_docs(writer: LineWriter) -> Seq<DocValues>;

/// The fields of the schema of the index held by a `LineWriter`.
pub uninterp spec fn writer_fields(writer: LineWriter) -> Seq<FieldEntry>;

/// The tokenizers of the index held by a `LineWriter`.
pub uninterp spec fn writer_analyzers(writer: LineWriter) -> Map<Seq<char>, bool>;

/// Whether a tantivy error is `TantivyError::InvalidArgument`.
pub uninterp spec fn is_invalid_argument(error: TantivyError) -> bool;

/// A memory budget that tantivy's writer accepts whatever the number of
/// threads: at least the least budget of one thread (15 MB), and below the
/// greatest budget of one thread (`u32::MAX` less a 1 MB margin).
pub open spec fn writer_budget_fits(memory_budget: usize) -> bool {
    15_000_000 <= memory_budget < 4_293_967_295
}

/// `Index::writer`: the index with a writer of the given memory budget, or
/// tantivy's error: the machine's parallelism cannot be read, the index is
/// locked by another writer, a thread cannot be started, or the budget per
/// thread is out of range (`InvalidArgument`). Tantivy uses fewer threads
/// when the budget is small, so a budget that fits never gives
/// `InvalidArgument`. Which of the other errors happens rests on the
/// machine, so success is not stated.
#[verifier::external_body]
fn index_writer(index: Index, memory_budget: usize) -> (r: Result<LineWriter, TantivyError>)
    ensures
        r matches Ok(w) ==> {
            &&& writer_docs(w) == index_docs(index)
            &&& committed_docs(w) == index_docs(index)
            &&& writer_fields(w) == index_fields(index)
            &&& writer_analyzers(w) == index_analyzers(index)
        },
        writer_budget_fits(memory_budget) ==> (r matches Err(e) ==> !is_invalid_argument(e)),
{
    let writer = index.writer(memory_budget)?;
    Ok(LineWriter { index, writer })
}

/// The values of a document in the order they were added: the field id,
/// and the text when the value is a text, the number when it is a `u64`.
pub uninterp spec fn doc_values(doc: TantivyDocument) -> DocValues;

/// `TantivyDocument::new`: a document with no value.
#[verifier::external_body]
fn new_document() -> (r: TantivyDocument)
    ensures
        doc_values(r) == DocValues::empty(),
{
    TantivyDocument::new()
}

/// An upper bound on the bytes the values of a document take in its data
/// buffer: a text its UTF-8 bytes and at most five for its length, a number
/// eight.
pub open spec fn doc_data_bound(values: DocValues) -> nat
    decreases values.len(),
{
    if values.len() == 0 {
        0
    } else {
        doc_data_bound(values.drop_last()) + match values.last().1 {
            Some(t) => byte_len(t) + 5,
            None => 8,
        }
    }
}

/// `TantivyDocument::add_text`: appends `text` as a value of the field with
/// id `field`. The document records a value's place in its data and a
/// text's length as `u32`, so the data before the text must lie within 4
/// GiB and the text be shorter than 4 GiB. It panics on ids above
/// `u16::MAX`.
#[verifier::external_body]
fn add_text(doc: &mut TantivyDocument, field: u32, text: &str)
    requires
        field <= u16::MAX,
        doc_data_bound(doc_values(*old(doc))) < 0x1_0000_0000,
        byte_len(text@) < 0x1_0000_0000,
    ensures
        doc_values(*final(doc)) == doc_values(*old(doc)).push((field, Some(text@), None)),
{
    doc.add_text(Field::from_field_id(field), text)
}

/// `TantivyDocument::add_u64`: appends `value` as a value of the field with
/// id `field`. The document records a value's place in its data as `u32`,
/// so the data before the value must lie within 4 GiB. It panics on ids
/// above `u16::MAX`.
#[verifier::external_body]
fn add_u64(doc: &mut TantivyDocument, field: u32, value: u64)
    requires
        field <= u16::MAX,
        doc_data_bound(doc_values(*old(doc))) < 0x1_0000_0000,
    ensures
        doc_values(*final(doc)) == doc_values(*old(doc)).push((field, None, Some(value))),
{
    doc.add_u64(Field::from_field_id(field), value)
}

/// The first value of the field with id `field` among `values`.
pub open spec fn first_value(values: DocValues, field: u32) -> Option<
    (u32, Option<Seq<char>>, Option<u64>),
>
    decreases values.len(),
{
    if values.len() == 0 {
        None
    } else if values[0].0 == field {
        Some(values[0])
    } else {
        first_value(values.drop_first(), field)
    }
}

/// `IndexWriter::add_document`: queues the document for indexing and gives
/// its operation stamp; on tantivy's error (the indexing threads are gone)
/// the document is not queued. Nothing is committed by it.
#[verifier::external_body]
fn add_document(writer: &mut LineWriter, doc: TantivyDocument) -> (r: Result<u64, TantivyError>)
    ensures
        r is Ok ==> writer_docs(*final(writer)) == writer_docs(*old(writer)).push(doc_values(doc)),
        r is Err ==> writer_docs(*final(writer)) == writer_docs(*old(writer)),
        committed_docs(*final(writer)) == committed_docs(*old(writer)),
        writer_fields(*final(writer)) == writer_fields(*old(writer)),
        writer_analyzers(*final(writer)) == writer_analyzers(*old(writer)),
{
    writer.writer.add_document(doc)
}

/// `IndexWriter::commit`: makes the documents added so far searchable and
/// gives the commit's stamp, or tantivy's error; it adds no document. On an
/// error, either nothing more or all of them are committed.
#[verifier::external_body]
fn commit(writer: &mut LineWriter) -> (r: Result<u64, TantivyError>)
    ensures
        writer_docs(*final(writer)) == writer_docs(*old(writer)),
        r is Ok ==> committed_docs(*final(writer)) == writer_docs(*final(writer)),
        r is Err ==> committed_docs(*final(writer)) == committed_docs(*old(writer))
            || committed_docs(*final(writer)) == writer_docs(*final(writer)),
        writer_fields(*final(writer)) == writer_fields(*old(writer)),
        writer_analyzers(*final(writer)) == writer_analyzers(*old(writer)),
{
    writer.writer.commit()
}

/// The values of `doc` that a schema with `fields` stores, in order.
pub open spec fn stored_values(fields: Seq<FieldEntry>, doc: DocValues) -> DocValues
    decreases doc.len(),
{
    if doc.len() == 0 {
        doc
    } else {
        let rest = stored_values(fields, doc.drop_last());
        let v = doc.last();
        if v.0 < fields.len() && fields[v.0 as int].3 {
            rest.push(v)
        } else {
            rest
        }
    }
}

/// The documents a searcher serves, by address (segment ordinal, document
/// id): the values of their stored fields.
pub uninterp spec fn searcher_docs(searcher: Searcher) -> Map<(u32, u32), DocValues>;

/// Which committed document, by its place among the committed documents,
/// a searcher serves at an address.
pub uninterp spec fn served_index(searcher: Searcher, address: (u32, u32)) -> int;

/// The fields of the schema a searcher searches.
pub uninterp spec fn searcher_fields(searcher: Searcher) -> Seq<FieldEntry>;

/// The tokenizers of the index a searcher searches.
pub uninterp spec fn searcher_analyzers(searcher: Searcher) -> Map<Seq<char>, bool>;

/// `Index::reader`, then `IndexReader::searcher`: a searcher over the
/// committed documents of the index, or the reader's error. It serves each
/// committed document at one address, reduced to its stored values. The
/// two calls stand together because a reader may later reload a newer
/// state of the index.
#[verifier::external_body]
fn index_searcher(writer: &LineWriter) -> (r: Result<Searcher, TantivyError>)
    ensures
        r matches Ok(s) ==> {
            &&& searcher_fields(s) == writer_fields(*writer)
            &&& searcher_analyzers(s) == writer_analyzers(*writer)
            &&& searcher_docs(s).dom().finite()
            &&& searcher_docs(s).len() == committed_docs(*writer).len()
            &&& forall|a: (u32, u32)|
                #[trigger] searcher_docs(s).contains_key(a) ==> {
                    &&& 0 <= served_index(s, a) < committed_docs(*writer).len()
                    &&& searcher_docs(s)[a] == stored_values(
                        writer_fields(*writer),
                        committed_docs(*writer)[served_index(s, a)],
                    )
                }
            &&& forall|a: (u32, u32), b: (u32, u32)|
                #![trigger served_index(s, a), served_index(s, b)]
                searcher_docs(s).contains_key(a) && searcher_docs(s).contains_key(b) && a != b
                    ==> served_index(s, a) != served_index(s, b)
            &&& forall|j: int|
                #![trigger committed_docs(*writer)[j]]
                0 <= j < committed_docs(*writer).len() ==> exists|a: (u32, u32)|
                    #[trigger] searcher_docs(s).contains_key(a) && served_index(s, a) == j
        },
{
    Ok(writer.index.reader()?.searcher())
}

/// Whether a fuzzy term query with term text `word`, edit distance
/// `distance`, transposition cost and prefix flag matches `text` as the
/// lowercasing analyzer indexes it: whether one of the lowercased
/// alphanumeric runs of `text` lies within `distance` edits (insertions,
/// deletions, substitutions, and adjacent transpositions counting one edit
/// when `transposition_cost_one`) of `word`, or has such a prefix when
/// `prefix`. Runs longer than 65530 bytes are not indexed and so never
/// match.
pub uninterp spec fn fuzzy_match(
    word: Seq<char>,
    distance: u8,
    transposition_cost_one: bool,
    prefix: bool,
    text: Seq<char>,
) -> bool;

/// Every clause is on a field that holds text, is indexed by a tokenizer
/// registered as the lowercasing analyzer, and is stored.
pub open spec fn clauses_fit(
    fields: Seq<FieldEntry>,
    analyzers: Map<Seq<char>, bool>,
    clauses: Seq<FuzzyParts>,
) -> bool {
    forall|c: int|
        0 <= c < clauses.len() ==> {
            let f = (#[trigger] clauses[c]).0.0 as int;
            &&& 0 <= f < fields.len()
            &&& fields[f].1
            &&& fields[f].3
            &&& (fields[f].2 matches Some(ix) && analyzers.contains_key(ix.0) && analyzers[ix.0])
        }
}

/// A document with the stored values `values` matches one of the clauses:
/// a text of the clause's field matches it.
pub open spec fn doc_matches(clauses: Seq<FuzzyParts>, values: DocValues) -> bool {
    exists|c: int, v: int|
        #![trigger clauses[c], values[v]]
        0 <= c < clauses.len() && 0 <= v < values.len() && values[v].0 == clauses[c].0.0
            && (values[v].1 matches Some(t) && fuzzy_match(
            clauses[c].0.1,
            clauses[c].1,
            clauses[c].2,
            clauses[c].3,
            t,
        ))
}

/// A text of the clause's field among the stored values `values` matches
/// the clause.
pub open spec fn clause_matches(clause: FuzzyParts, values: DocValues) -> bool {
    exists|v: int|
        0 <= v < values.len() && (#[trigger] values[v]).0 == clause.0.0 && (values[v].1 matches Some(
            t,
        ) && fuzzy_match(clause.0.1, clause.1, clause.2, clause.3, t))
}

/// How many of the clauses a document with the stored values `values`
/// matches.
pub open spec fn matching_clauses(clauses: Seq<FuzzyParts>, values: DocValues) -> nat
    decreases clauses.len(),
{
    if clauses.len() == 0 {
        0
    } else {
        matching_clauses(clauses.drop_last(), values) + if clause_matches(clauses.last(), values) {
            1nat
        } else {
            0nat
        }
    }
}

/// `Searcher::search` with `TopDocs::with_limit(limit).order_by_score()`:
/// the addresses of the best-scoring documents that the query matches, at
/// most `limit` of them and none twice (tantivy's scores are dropped), or
/// tantivy's error. A document matches the union of fuzzy clauses when one
/// of its indexed texts matches a clause; when the clauses fit the schema,
/// the addresses are matching documents, and all of them when there are no
/// more documents than `limit`. A fuzzy term query scores each document it
/// matches with the constant 1 and the union sums the scores of its
/// clauses, so a document's score is the number of clauses it matches; the
/// addresses come best first. `with_limit` panics on a limit of 0. The
/// query is one that `BooleanQuery::union` built of fuzzy term queries.
#[verifier::external_body]
fn top_documents(searcher: &Searcher, query: &BooleanQuery, limit: usize) -> (r: Result<
    Vec<(u32, u32)>,
    TantivyError,
>)
    requires
        limit > 0,
    ensures
        r matches Ok(addresses) ==> {
            &&& addresses@.len() <= limit
            &&& addresses@.no_duplicates()
            &&& forall|k: int|
                0 <= k < addresses@.len() ==> searcher_docs(*searcher).contains_key(
                    #[trigger] addresses@[k],
                )
            &&& clauses_fit(
                searcher_fields(*searcher),
                searcher_analyzers(*searcher),
                union_clauses(*query),
            ) ==> {
                &&& forall|k: int|
                    0 <= k < addresses@.len() ==> exists|c: int, v: int|
                        #![trigger union_clauses(*query)[c], searcher_docs(*searcher)[addresses@[k]][v]]
                        0 <= c < union_clauses(*query).len() && 0 <= v < searcher_docs(
                            *searcher,
                        )[#[trigger] addresses@[k]].len() && searcher_docs(
                            *searcher,
                        )[addresses@[k]][v].0 == union_clauses(*query)[c].0.0 && (searcher_docs(
                            *searcher,
                        )[addresses@[k]][v].1 matches Some(t) && fuzzy_match(
                            union_clauses(*query)[c].0.1,
                            union_clauses(*query)[c].1,
                            union_clauses(*query)[c].2,
                            union_clauses(*query)[c].3,
                            t,
                        ))
                &&& searcher_docs(*searcher).dom().finite() && searcher_docs(*searcher).len()
                    <= limit ==> forall|a: (u32, u32)|
                    #[trigger] searcher_docs(*searcher).contains_key(a) && doc_matches(
                        union_clauses(*query),
                        searcher_docs(*searcher)[a],
                    ) ==> addresses@.contains(a)
                &&& forall|k1: int, k2: int|
                    0 <= k1 < k2 < addresses@.len() ==> matching_clauses(
                        union_clauses(*query),
                        searcher_docs(*searcher)[#[trigger] addresses@[k1]],
                    ) >= matching_clauses(
                        union_clauses(*query),
                        searcher_docs(*searcher)[#[trigger] addresses@[k2]],
                    )
            }
        },
{
    let top = searcher.search(query, &TopDocs::with_limit(limit).order_by_score())?;
    Ok(top.into_iter().map(|(_, a)| (a.segment_ord, a.doc_id)).collect())
}

/// `Searcher::doc`: the stored document at `address`, or tantivy's error
/// (reading the store failed). It panics on an address outside the
/// searcher's segments.
#[verifier::external_body]
fn stored_document(searcher: &Searcher, address: (u32, u32)) -> (r: Result<
    TantivyDocument,
    TantivyError,
>)
    requires
        searcher_docs(*searcher).contains_key(address),
    ensures
        r matches Ok(doc) ==> doc_values(doc) == searcher_docs(*searcher)[address],
{
    searcher.doc::<TantivyDocument>(DocAddress::new(address.0, address.1))
}

/// `TantivyDocument::get_first` read by `Value::as_str`: the first value of
/// the field with id `field`, when there is one and it is a text.
#[verifier::external_body]
fn first_text(doc: &TantivyDocument, field: u32) -> (r: Option<String>)
    ensures
        r matches Some(t) ==> first_value(doc_values(*doc), field) matches Some(v) && v.1
            == Some(t@),
        r is None ==> !(first_value(doc_values(*doc), field) matches Some(v) && v.1 is Some),
{
    doc.get_first(Field::from_field_id(field)).and_then(|v| v.as_str()).map(|s| s.to_string())
}

/// `TantivyDocument::get_first` read by `Value::as_u64`: the first value of
/// the field with id `field`, when there is one and it is a `u64`.
#[verifier::external_body]
fn first_u64(doc: &TantivyDocument, field: u32) -> (r: Option<u64>)
    ensures
        r matches Some(n) ==> first_value(doc_values(*doc), field) matches Some(v) && v.2
            == Some(n),
        r is None ==> !(first_value(doc_values(*doc), field) matches Some(v) && v.2 is Some),
{
    doc.get_first(Field::from_field_id(field)).and_then(|v| v.as_u64())
}

/// The name under which the lowercasing analyzer is registered.
pub const LOWERCASE_TOKENIZER: &'static str = "lowercase";

/// The memory budget of the index writer, in bytes.
pub const WRITER_MEMORY_BUDGET: usize = 50_000_000;

/// How many edits a word of the search text may be away from a word of a
/// line.
pub const FUZZY_DISTANCE: u8 = 2;

/// The longest line, in UTF-8 bytes, that a line document can hold: the
/// document's data, the line with its length and then the number, must
/// keep within 4 GiB.
pub const MAX_LINE_BYTES: u64 = 0xFFFF_FFF0;

/// A document of one line: its text in the line field, then its number in
/// the number field.
pub open spec fn is_line_doc(doc: DocValues, line_field: u32, number_field: u32) -> bool {
    &&& doc.len() == 2
    &&& doc[0].0 == line_field && doc[0].1 is Some && doc[0].2 is None
    &&& doc[1].0 == number_field && doc[1].1 is None && doc[1].2 is Some
}

/// The number and text of a line document.
pub open spec fn line_entry(doc: DocValues) -> (u64, Seq<char>) {
    (doc[1].2->0, doc[0].1->0)
}

/// The numbered lines: line `i + 1` is `lines[i]`.
pub open spec fn numbered_lines(lines: Seq<String>) -> Seq<(u64, Seq<char>)> {
    Seq::new(lines.len(), |i: int| ((i + 1) as u64, lines[i]@))
}

/// The index holds lines as `Search::new` sets it up: the line field is a
/// stored text field named `line`, indexed by the tokenizer registered
/// under `LOWERCASE_TOKENIZER` with term frequencies and positions; that
/// tokenizer is the lowercasing analyzer; the number field is a stored,
/// unindexed `u64` field named `line_number`.
pub open spec fn indexes_lines(
    config: (Seq<FieldEntry>, Map<Seq<char>, bool>),
    line_field: u32,
    number_field: u32,
) -> bool {
    &&& line_field < config.0.len()
    &&& number_field < config.0.len()
    &&& config.0[line_field as int] == ("line"@, true, Some((LOWERCASE_TOKENIZER@, true)), true)
    &&& config.0[number_field as int] == ("line_number"@, false, None::<(Seq<char>, bool)>, true)
    &&& config.1.contains_key(LOWERCASE_TOKENIZER@)
    &&& config.1[LOWERCASE_TOKENIZER@]
}

/// A lowercased word of `text` matches `line`: it lies within two edits of
/// a lowercased alphanumeric run of `line`, a transposition counting one
/// (`fuzzy_match`; a run longer than 65530 bytes is not indexed and matches
/// no word).
pub open spec fn words_match(text: Seq<char>, line: Seq<char>) -> bool {
    exists|i: int|
        0 <= i < split_whitespace(lowercase(text)).len() && fuzzy_match(
            #[trigger] split_whitespace(lowercase(text))[i],
            FUZZY_DISTANCE,
            true,
            false,
            line,
        )
}

/// How many of the lowercased words of `text` (counted with repeats) match
/// `line`.
pub open spec fn words_matched(text: Seq<char>, line: Seq<char>) -> nat {
    count_tokens(
        split_whitespace(lowercase(text)),
        |w: Seq<char>| fuzzy_match(w, FUZZY_DISTANCE, true, false, line),
    )
}

/// `found` is exactly the numbered lines of `entries` that match the words
/// of `text`, each once, best first: `found[k]` is the entry at `places[k]`,
/// and a line matching more of the words never comes after one matching
/// fewer.
pub open spec fn finds(
    found: Seq<(usize, String)>,
    entries: Seq<(u64, Seq<char>)>,
    text: Seq<char>,
    places: Seq<int>,
) -> bool {
    &&& places.len() == found.len()
    &&& places.no_duplicates()
    &&& forall|k: int|
        #![trigger places[k]]
        0 <= k < places.len() ==> {
            &&& 0 <= places[k] < entries.len()
            &&& found[k].0 == entries[places[k]].0 as usize
            &&& found[k].1@ == entries[places[k]].1
        }
    &&& forall|j: int|
        0 <= j < entries.len() ==> (places.contains(j) <==> words_match(text, #[trigger] entries[j].1))
    &&& forall|k1: int, k2: int|
        0 <= k1 < k2 < places.len() ==> words_matched(text, entries[#[trigger] places[k1]].1)
            >= words_matched(text, entries[#[trigger] places[k2]].1)
}

/// A found line matches at most all the words of the text, and a search
/// finds best first: a found line matching every lowercased word of the
/// text never comes after one that misses a word.
pub proof fn lemma_full_matches_come_first(
    found: Seq<(usize, String)>,
    entries: Seq<(u64, Seq<char>)>,
    text: Seq<char>,
    places: Seq<int>,
)
    requires
        finds(found, entries, text, places),
    ensures
        forall|k: int|
            0 <= k < places.len() ==> words_matched(text, entries[#[trigger] places[k]].1)
                <= split_whitespace(lowercase(text)).len(),
        forall|k1: int, k2: int|
            0 <= k1 < k2 < places.len() && words_matched(text, entries[#[trigger] places[k2]].1)
                == split_whitespace(lowercase(text)).len() ==> words_matched(
                text,
                entries[#[trigger] places[k1]].1,
            ) == split_whitespace(lowercase(text)).len(),
{
    let words = split_whitespace(lowercase(text));
    let any = |w: Seq<char>| true;
    lemma_count_tokens_all(words, any);
    assert forall|line: Seq<char>| #[trigger] words_matched(text, line) <= words.len() by {
        let p = |w: Seq<char>| fuzzy_match(w, FUZZY_DISTANCE, true, false, line);
        lemma_count_tokens_weaker(words, p, any);
    }
}

/// A stored line document is the whole line document.
pub proof fn lemma_stored_line_doc(
    fields: Seq<FieldEntry>,
    doc: DocValues,
    line_field: u32,
    number_field: u32,
)
    requires
        is_line_doc(doc, line_field, number_field),
        line_field < fields.len() && fields[line_field as int].3,
        number_field < fields.len() && fields[number_field as int].3,
    ensures
        stored_values(fields, doc) == doc,
{
    let d1 = doc.drop_last();
    assert(d1.drop_last() =~= DocValues::empty());
    assert(stored_values(fields, d1.drop_last()) == DocValues::empty());
    assert(stored_values(fields, d1) =~= seq![doc[0]]);
    assert(stored_values(fields, doc) =~= seq![doc[0]].push(doc[1]));
    assert(doc =~= seq![doc[0]].push(doc[1]));
}

/// The first values of the two fields of a line document are its line and
/// its number.
pub proof fn lemma_first_values_of_line_doc(doc: DocValues, line_field: u32, number_field: u32)
    requires
        is_line_doc(doc, line_field, number_field),
        line_field != number_field,
    ensures
        first_value(doc, line_field) == Some(doc[0]),
        first_value(doc, number_field) == Some(doc[1]),
{
    let rest = doc.drop_first();
    assert(rest[0] == doc[1]);
    assert(first_value(rest, number_field) == Some(rest[0]));
}

/// A line document matches the word clauses of `text` exactly when its
/// line matches the words of `text`.
pub proof fn lemma_line_doc_matches(
    doc: DocValues,
    line_field: u32,
    number_field: u32,
    text: Seq<char>,
)
    requires
        is_line_doc(doc, line_field, number_field),
        line_field != number_field,
    ensures
        doc_matches(Search::word_clauses(line_field, text), doc) <==> words_match(
            text,
            line_entry(doc).1,
        ),
{
    let clauses = Search::word_clauses(line_field, text);
    let words = split_whitespace(lowercase(text));
    let line = line_entry(doc).1;
    if doc_matches(clauses, doc) {
        let (c, v) = choose|c: int, v: int|
            #![trigger clauses[c], doc[v]]
            0 <= c < clauses.len() && 0 <= v < doc.len() && doc[v].0 == clauses[c].0.0
                && (doc[v].1 matches Some(t) && fuzzy_match(
                clauses[c].0.1,
                clauses[c].1,
                clauses[c].2,
                clauses[c].3,
                t,
            ));
        assert(clauses[c] == ((line_field, words[c]), FUZZY_DISTANCE, true, false));
        assert(v == 0);
        assert(fuzzy_match(words[c], FUZZY_DISTANCE, true, false, line));
    }
    if words_match(text, line) {
        let i = choose|i: int|
            0 <= i < words.len() && fuzzy_match(
                #[trigger] words[i],
                FUZZY_DISTANCE,
                true,
                false,
                line,
            );
        assert(clauses[i] == ((line_field, words[i]), FUZZY_DISTANCE, true, false));
        assert(doc[0].0 == clauses[i].0.0);
    }
}

/// A line document matches as many clauses made of `words` on the line
/// field as there are words matching its line.
proof fn lemma_line_doc_clause_count(
    doc: DocValues,
    line_field: u32,
    number_field: u32,
    words: Seq<Seq<char>>,
)
    requires
        is_line_doc(doc, line_field, number_field),
        line_field != number_field,
    ensures
        matching_clauses(
            words.map_values(|w: Seq<char>| ((line_field, w), FUZZY_DISTANCE, true, false)),
            doc,
        ) == count_tokens(
            words,
            |w: Seq<char>| fuzzy_match(w, FUZZY_DISTANCE, true, false, line_entry(doc).1),
        ),
    decreases words.len(),
{
    let f = |w: Seq<char>| ((line_field, w), FUZZY_DISTANCE, true, false);
    let clauses = words.map_values(f);
    if words.len() > 0 {
        lemma_line_doc_clause_count(doc, line_field, number_field, words.drop_last());
        assert(clauses.drop_last() =~= words.drop_last().map_values(f));
        let c = clauses.last();
        assert(c == f(words.last()));
        if clause_matches(c, doc) {
            let v = choose|v: int|
                0 <= v < doc.len() && (#[trigger] doc[v]).0 == c.0.0 && (doc[v].1 matches Some(
                    t,
                ) && fuzzy_match(c.0.1, c.1, c.2, c.3, t));
            assert(v == 0);
        }
        if fuzzy_match(words.last(), FUZZY_DISTANCE, true, false, line_entry(doc).1) {
            assert(doc[0].0 == c.0.0);
        }
    }
}

/// The word clauses of any text fit an index set up for lines.
pub proof fn lemma_word_clauses_fit(
    config: (Seq<FieldEntry>, Map<Seq<char>, bool>),
    line_field: u32,
    number_field: u32,
    text: Seq<char>,
)
    requires
        indexes_lines(config, line_field, number_field),
    ensures
        clauses_fit(config.0, config.1, Search::word_clauses(line_field, text)),
{
    let clauses = Search::word_clauses(line_field, text);
    assert forall|c: int| 0 <= c < clauses.len() implies (#[trigger] clauses[c]).0.0 == line_field by {
    }
}

/// The two errors of `Search::index_lines` differ.
proof fn lemma_index_errors_differ()
    ensures
        "cannot add document"@ != "cannot commit index"@,
{
    reveal_strlit("cannot add document");
    reveal_strlit("cannot commit index");
    assert("cannot add document"@[7] != "cannot commit index"@[7]);
}

/// An index of the lines of one text.
pub struct Search {
    line_field: u32,
    line_number_field: u32,
    writer: LineWriter,
    line_counter: usize,
}

impl Search {
    /// The index is set up for lines, on two distinct fields small enough
    /// for tantivy's documents; every document added is the document of a
    /// line; the committed documents come first among them; and no more
    /// documents were added than lines were handed to the index.
    pub closed spec fn wf(&self) -> bool {
        &&& self.line_field <= u16::MAX
        &&& self.line_number_field <= u16::MAX
        &&& self.line_field != self.line_number_field
        &&& indexes_lines(self.config(), self.line_field, self.line_number_field)
        &&& writer_docs(self.writer).len() <= self.line_counter
        &&& committed_docs(self.writer).len() <= writer_docs(self.writer).len()
        &&& committed_docs(self.writer) == writer_docs(self.writer).take(
            committed_docs(self.writer).len() as int,
        )
        &&& forall|i: int|
            0 <= i < writer_docs(self.writer).len() ==> is_line_doc(
                #[trigger] writer_docs(self.writer)[i],
                self.line_field,
                self.line_number_field,
            )
    }

    /// The schema's fields and the registered tokenizers of the index.
    pub closed spec fn config(&self) -> (Seq<FieldEntry>, Map<Seq<char>, bool>) {
        (writer_fields(self.writer), writer_analyzers(self.writer))
    }

    /// The id of the field that holds a line's text.
    pub closed spec fn line_field_id(&self) -> u32 {
        self.line_field
    }

    /// The id of the field that holds a line's number.
    pub closed spec fn number_field_id(&self) -> u32 {
        self.line_number_field
    }

    /// The numbered lines that were added to the index, in the order they
    /// were added.
    pub closed spec fn entries(&self) -> Seq<(u64, Seq<char>)> {
        writer_docs(self.writer).map_values(|d: DocValues| line_entry(d))
    }

    /// The numbered lines that are committed, and so searchable.
    pub closed spec fn committed_entries(&self) -> Seq<(u64, Seq<char>)> {
        committed_docs(self.writer).map_values(|d: DocValues| line_entry(d))
    }

    /// How many lines have been handed to the index.
    pub closed spec fn lines_indexed(&self) -> nat {
        self.line_counter as nat
    }

    /// How many lines have been handed to the index.
    pub fn line_counter(&self) -> (r: usize)
        ensures
            r == self.lines_indexed(),
    {
        self.line_counter
    }

    /// An empty index whose lines are stored with their numbers, and
    /// indexed as lowercase words with their positions.
    pub fn new() -> (r: Result<Self, TantivyError>)
        ensures
            r matches Ok(s) ==> {
                &&& s.wf()
                &&& indexes_lines(s.config(), s.line_field_id(), s.number_field_id())
                &&& s.lines_indexed() == 0
                &&& s.entries() == Seq::<(u64, Seq<char>)>::empty()
                &&& s.committed_entries() == Seq::<(u64, Seq<char>)>::empty()
            },
            r matches Err(e) ==> !is_invalid_argument(e),
    {
        let mut builder = schema_builder();
        proof {
            reveal_strlit("line");
            reveal_strlit("line_number");
        }
        let indexing = with_frequencies_and_positions(
            with_tokenizer(text_indexing(), LOWERCASE_TOKENIZER),
        );
        let options = with_stored(with_indexing(text_options(), indexing));
        let line_field = add_text_field(&mut builder, "line", options);
        assert("line_number"@ != "line"@) by {
            assert("line_number"@.len() != "line"@.len());
        }
        assert(!has_field_named(builder_fields(builder), "line_number"@)) by {
            assert(builder_fields(builder).len() == 1);
        }
        let line_number_field = add_stored_u64_field(&mut builder, "line_number");
        let schema = build_schema(builder);
        let mut index = create_in_ram(schema);
        register_tokenizer(&mut index, LOWERCASE_TOKENIZER, lowercase_analyzer());
        let writer = index_writer(index, WRITER_MEMORY_BUDGET)?;
        let search = Search { line_field, line_number_field, writer, line_counter: 0 };
        assert(search.entries() =~= Seq::<(u64, Seq<char>)>::empty());
        assert(search.committed_entries() =~= Seq::<(u64, Seq<char>)>::empty());
        assert(committed_docs(search.writer) =~= writer_docs(search.writer).take(0));
        Ok(search)
    }

    /// Adds the lines to the index, numbered from 1 in order, and commits
    /// them. When a line cannot be added, the lines before it stay added and
    /// nothing more is committed; when the commit fails, all lines are added
    /// and either none or all of them are committed.
    pub fn index_lines(&mut self, lines: &Vec<String>) -> (r: Result<(), &'static str>)
        requires
            old(self).wf(),
            old(self).lines_indexed() + lines@.len() <= usize::MAX,
            forall|i: int| 0 <= i < lines@.len() ==> byte_len(#[trigger] lines@[i]@) <= MAX_LINE_BYTES,
        ensures
            final(self).wf(),
            final(self).config() == old(self).config(),
            final(self).line_field_id() == old(self).line_field_id(),
            final(self).number_field_id() == old(self).number_field_id(),
            r is Ok ==> final(self).lines_indexed() == old(self).lines_indexed() + lines@.len(),
            r is Ok ==> final(self).entries() == old(self).entries() + numbered_lines(lines@),
            r is Ok ==> final(self).committed_entries() == final(self).entries(),
            final(self).lines_indexed() <= old(self).lines_indexed() + lines@.len(),
            r matches Err(e) ==> e@ == "cannot add document"@ || e@ == "cannot commit index"@,
            r matches Err(e) && e@ == "cannot add document"@ ==> {
                &&& exists|k: int|
                    0 <= k < lines@.len() && final(self).entries() == old(self).entries()
                        + numbered_lines(lines@).take(k)
                &&& final(self).committed_entries() == old(self).committed_entries()
            },
            r matches Err(e) && e@ == "cannot commit index"@ ==> {
                &&& final(self).entries() == old(self).entries() + numbered_lines(lines@)
                &&& final(self).committed_entries() == old(self).committed_entries()
                    || final(self).committed_entries() == final(self).entries()
            },
    {
        proof {
            lemma_index_errors_differ();
        }
        let ghost start = self.entries();
        let ghost all = numbered_lines(lines@);
        assert(start + all.take(0) =~= start);
        let mut i: usize = 0;
        while i < lines.len()
            invariant
                i <= lines@.len(),
                self.wf(),
                self.config() == old(self).config(),
                self.line_field == old(self).line_field,
                self.line_number_field == old(self).line_number_field,
                committed_docs(self.writer) == committed_docs(old(self).writer),
                all == numbered_lines(lines@),
                self.entries() == start + all.take(i as int),
                start == old(self).entries(),
                self.lines_indexed() == old(self).lines_indexed() + i,
                old(self).lines_indexed() + lines@.len() <= usize::MAX,
                forall|j: int| 0 <= j < lines@.len() ==> byte_len(#[trigger] lines@[j]@) <= MAX_LINE_BYTES,
            decreases lines@.len() - i,
        {
            self.line_counter = self.line_counter + 1;
            let mut doc = new_document();
            assert(byte_len(lines@[i as int]@) <= MAX_LINE_BYTES);
            add_text(&mut doc, self.line_field, lines[i].as_str());
            assert(doc_values(doc).drop_last() =~= DocValues::empty());
            assert(doc_values(doc).last().1 == Some(lines@[i as int]@));
            assert(doc_data_bound(DocValues::empty()) == 0);
            assert(doc_data_bound(doc_values(doc)) == byte_len(lines@[i as int]@) + 5);
            add_u64(&mut doc, self.line_number_field, (i + 1) as u64);
            let ghost before = writer_docs(self.writer);
            let ghost before_entries = self.entries();
            if add_document(&mut self.writer, doc).is_err() {
                assert(self.entries() == before_entries);
                proof {
                    lemma_index_errors_differ();
                }
                return Err("cannot add document");
            }
            proof {
                let d = doc_values(doc);
                assert(d =~= seq![
                    (self.line_field, Some(lines@[i as int]@), None),
                    (self.line_number_field, None, Some((i + 1) as u64)),
                ]);
                assert(is_line_doc(d, self.line_field, self.line_number_field));
                assert(writer_docs(self.writer) == before.push(d));
                assert(self.entries() =~= before_entries.push(line_entry(d)));
                assert(line_entry(d) == all[i as int]);
                assert(all.take(i + 1) =~= all.take(i as int).push(all[i as int]));
                assert(self.entries() =~= start + all.take(i + 1));
                let c = committed_docs(self.writer);
                assert(c =~= writer_docs(self.writer).take(c.len() as int));
            }
            i = i + 1;
        }
        assert(all.take(lines@.len() as int) =~= all);
        assert(self.entries() == old(self).entries() + numbered_lines(lines@));
        let ghost added = writer_docs(self.writer);
        let ghost added_entries = self.entries();
        let ghost committed_before = self.committed_entries();
        assert(committed_before == old(self).committed_entries());
        if commit(&mut self.writer).is_err() {
            assert(added.take(added.len() as int) =~= added);
            assert(self.entries() == added_entries);
            assert(self.committed_entries() == committed_before || self.committed_entries()
                == self.entries());
            return Err("cannot commit index");
        }
        assert(added.take(added.len() as int) =~= added);
        Ok(())
    }

    /// The committed lines holding a word within two edits of a lowercased
    /// word of `text` (a transposition counting one edit; words longer than
    /// 65530 bytes are not indexed), each once, with their numbers, best
    /// first by tantivy's score. The index is left as it is.
    pub fn query(&mut self, text: &String) -> (r: Result<Vec<(usize, String)>, &'static str>)
        requires
            old(self).wf(),
            old(self).lines_indexed() > 0,
        ensures
            *final(self) == *old(self),
            r matches Ok(found) ==> found@.len() <= old(self).lines_indexed() && exists|
                places: Seq<int>,
            | #[trigger] finds(found@, old(self).committed_entries(), text@, places),
            r matches Err(e) ==> e@ == "could not setup query reader"@ || e@
                == "docs selection error"@ || e@ == "retrieved document error"@,
    {
        let searcher = match index_searcher(&self.writer) {
            Ok(searcher) => searcher,
            Err(_) => return Err("could not setup query reader"),
        };
        let ghost committed = committed_docs(self.writer);
        let ghost fields = writer_fields(self.writer);
        let ghost entries = self.committed_entries();
        let query = self.subqueries(text.as_str());
        let ghost clauses = union_clauses(query);
        proof {
            lemma_word_clauses_fit(self.config(), self.line_field, self.line_number_field, text@);
        }
        let top = match top_documents(&searcher, &query, self.line_counter) {
            Ok(top) => top,
            Err(_) => return Err("docs selection error"),
        };
        assert(committed.len() <= self.line_counter);
        let mut results: Vec<(usize, String)> = Vec::new();
        let ghost mut places: Seq<int> = Seq::empty();
        let mut i: usize = 0;
        while i < top.len()
            invariant
                i <= top@.len(),
                self.wf(),
                committed == committed_docs(self.writer),
                fields == writer_fields(self.writer),
                entries == self.committed_entries(),
                top@.len() <= self.lines_indexed(),
                results@.len() == i,
                places.len() == i,
                forall|k: int|
                    0 <= k < top@.len() ==> searcher_docs(searcher).contains_key(
                        #[trigger] top@[k],
                    ),
                forall|a: (u32, u32)|
                    #[trigger] searcher_docs(searcher).contains_key(a) ==> {
                        &&& 0 <= served_index(searcher, a) < committed.len()
                        &&& searcher_docs(searcher)[a] == stored_values(
                            fields,
                            committed[served_index(searcher, a)],
                        )
                    },
                forall|k: int|
                    #![trigger places[k]]
                    0 <= k < i ==> {
                        &&& places[k] == served_index(searcher, top@[k])
                        &&& 0 <= places[k] < entries.len()
                        &&& results@[k].0 == entries[places[k]].0 as usize
                        &&& results@[k].1@ == entries[places[k]].1
                    },
            decreases top@.len() - i,
        {
            let address = top[i];
            let doc = match stored_document(&searcher, address) {
                Ok(doc) => doc,
                Err(_) => return Err("retrieved document error"),
            };
            let ghost j = served_index(searcher, address);
            proof {
                let d = committed[j];
                assert(committed[j] == writer_docs(self.writer)[j]);
                lemma_stored_line_doc(fields, d, self.line_field, self.line_number_field);
                lemma_first_values_of_line_doc(d, self.line_field, self.line_number_field);
                assert(entries[j] == line_entry(d));
            }
            let line = first_text(&doc, self.line_field);
            let line_number = first_u64(&doc, self.line_number_field);
            let found = Self::hit(line, line_number);
            if let Some(found) = found {
                results.push(found);
                proof {
                    places = places.push(j);
                }
            }
            i = i + 1;
        }
        proof {
            assert forall|k1: int, k2: int|
                0 <= k1 < places.len() && 0 <= k2 < places.len() && k1 != k2 implies places[k1]
                != places[k2] by {
                assert(top@[k1] != top@[k2]);
                assert(searcher_docs(searcher).contains_key(top@[k1]));
                assert(searcher_docs(searcher).contains_key(top@[k2]));
            }
            assert forall|j: int| 0 <= j < entries.len() implies (places.contains(j)
                <==> words_match(text@, #[trigger] entries[j].1)) by {
                let d = committed[j];
                assert(committed[j] == writer_docs(self.writer)[j]);
                lemma_stored_line_doc(fields, d, self.line_field, self.line_number_field);
                lemma_line_doc_matches(d, self.line_field, self.line_number_field, text@);
                assert(entries[j] == line_entry(d));
                if places.contains(j) {
                    let k = choose|k: int| 0 <= k < places.len() && places[k] == j;
                    assert(doc_matches(clauses, searcher_docs(searcher)[top@[k]]));
                }
                if words_match(text@, entries[j].1) {
                    let a = choose|a: (u32, u32)|
                        #[trigger] searcher_docs(searcher).contains_key(a) && served_index(
                            searcher,
                            a,
                        ) == j;
                    assert(doc_matches(clauses, searcher_docs(searcher)[a]));
                    assert(top@.contains(a));
                    let k = choose|k: int| 0 <= k < top@.len() && top@[k] == a;
                    assert(places[k] == j);
                }
            }
            assert forall|k1: int, k2: int| 0 <= k1 < k2 < places.len() implies words_matched(
                text@,
                entries[#[trigger] places[k1]].1,
            ) >= words_matched(text@, entries[#[trigger] places[k2]].1) by {
                let a1 = top@[k1];
                let a2 = top@[k2];
                assert(searcher_docs(searcher).contains_key(a1));
                assert(searcher_docs(searcher).contains_key(a2));
                let d1 = committed[places[k1]];
                let d2 = committed[places[k2]];
                assert(committed[places[k1]] == writer_docs(self.writer)[places[k1]]);
                assert(committed[places[k2]] == writer_docs(self.writer)[places[k2]]);
                lemma_stored_line_doc(fields, d1, self.line_field, self.line_number_field);
                lemma_stored_line_doc(fields, d2, self.line_field, self.line_number_field);
                let words = split_whitespace(lowercase(text@));
                lemma_line_doc_clause_count(d1, self.line_field, self.line_number_field, words);
                lemma_line_doc_clause_count(d2, self.line_field, self.line_number_field, words);
                assert(entries[places[k1]] == line_entry(d1));
                assert(entries[places[k2]] == line_entry(d2));
                assert(matching_clauses(clauses, searcher_docs(searcher)[a1]) >= matching_clauses(
                    clauses,
                    searcher_docs(searcher)[a2],
                ));
            }
            assert(finds(results@, entries, text@, places));
        }
        Ok(results)
    }

    /// A retrieved document as a found line: its number and text, when it
    /// holds both.
    pub fn hit(line: Option<String>, line_number: Option<u64>) -> (r: Option<(usize, String)>)
        ensures
            r is Some <==> line is Some && line_number is Some,
            r matches Some(found) ==> found.0 == line_number->0 as usize && found.1@
                == line->0@,
    {
        match (line, line_number) {
            (Some(line), Some(line_number)) => Some((line_number as usize, line)),
            _ => None,
        }
    }

    /// The query that matches a line holding a word within two edits of a
    /// lowercased word of `text`: one fuzzy clause on the line field per
    /// word, in order.
    pub open spec fn word_clauses(line_field: u32, text: Seq<char>) -> Seq<FuzzyParts> {
        split_whitespace(lowercase(text)).map_values(
            |w: Seq<char>| ((line_field, w), FUZZY_DISTANCE, true, false),
        )
    }

    /// The query that matches a line holding a word within two edits of a
    /// lowercased word of `text`.
    fn subqueries(&self, text: &str) -> (r: BooleanQuery)
        ensures
            union_clauses(r) == Self::word_clauses(self.line_field, text@),
    {
        let lower = to_lowercase(text);
        let words = split_whitespace_exec(&chars_of(lower.as_str()));
        let ghost target = Self::word_clauses(self.line_field, text@);
        let mut queries: Vec<FuzzyTermQuery> = Vec::new();
        let mut i: usize = 0;
        while i < words.len()
            invariant
                i <= words@.len(),
                queries@.len() == i,
                words_view(words@) == split_whitespace(lowercase(text@)),
                target == Self::word_clauses(self.line_field, text@),
                queries@.map_values(|q: FuzzyTermQuery| fuzzy_parts(q)) == target.take(i as int),
            decreases words@.len() - i,
        {
            let word = string_from_chars(&words[i]);
            let query = fuzzy_term_query(field_term(self.line_field, word.as_str()), FUZZY_DISTANCE, true);
            let ghost before = queries@;
            queries.push(query);
            assert(words_view(words@)[i as int] == words@[i as int]@);
            assert(queries@.map_values(|q: FuzzyTermQuery| fuzzy_parts(q)) =~= target.take(i + 1)) by {
                let m = queries@.map_values(|q: FuzzyTermQuery| fuzzy_parts(q));
                let mb = before.map_values(|q: FuzzyTermQuery| fuzzy_parts(q));
                assert(queries@ == before.push(query));
                assert(mb == target.take(i as int));
                assert(target.len() == words@.len());
                assert(m[i as int] == fuzzy_parts(query));
                assert(fuzzy_parts(query) == ((self.line_field, words@[i as int]@), FUZZY_DISTANCE, true, false));
                assert(target[i as int] == ((self.line_field, words@[i as int]@), FUZZY_DISTANCE, true, false));
                assert forall|j: int| 0 <= j < i implies m[j] == target.take(i + 1)[j] by {
                    assert(queries@[j] == before[j]);
                    assert(m[j] == mb[j]);
                    assert(mb[j] == target.take(i as int)[j]);
                }
            }
            i = i + 1;
        }
        assert(target.take(words@.len() as int) =~= target);
        union_query(queries)
    }
}

} // verus!
