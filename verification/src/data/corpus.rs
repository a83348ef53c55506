//! Reading documents out of whatever was downloaded.
//!
//! Three formats, because those are the three that corpora actually ship in:
//! parquet, JSON Lines, and plain text. Everything downstream sees one flat
//! stream of documents.

use vstd::prelude::*;

use crate::data::path;
use crate::json;
use crate::text;

verus! {

/// Why a document, or a corpus, cannot be read.
#[derive(Debug)]
pub enum Error {
    /// A file or a directory cannot be read, or a line is no JSON.
    Io(String),
    /// A parquet file cannot be read.
    Parquet(String),
    /// The file has no column or JSON key by the requested name.
    NoField { path: String, field: String },
    /// A path whose extension is none of the supported ones.
    Unknown(String),
}

impl Error {
    /// The error in words.
    pub open spec fn words(self) -> Seq<char> {
        match self {
            Error::Io(error) => error@,
            Error::Parquet(error) => error@,
            Error::NoField { path, field } => path@ + " has no field `"@ + field@ + "`"@,
            Error::Unknown(path) => path@ + ": unknown format"@,
        }
    }

    /// The error in words.
    pub fn message(&self) -> (r: String)
        ensures
            r@ == self.words(),
    {
        let mut out = String::new();
        match self {
            Error::Io(error) => {
                out.append(error.as_str());
            },
            Error::Parquet(error) => {
                out.append(error.as_str());
            },
            Error::NoField { path, field } => {
                out.append(path.as_str());
                out.append(" has no field `");
                out.append(field.as_str());
                out.append("`");
            },
            Error::Unknown(path) => {
                out.append(path.as_str());
                out.append(": unknown format");
            },
        }
        assert(out@ =~= self.words());
        out
    }

    /// The same error once more.
    pub fn copy(&self) -> (r: Self)
        ensures
            r == *self,
    {
        match self {
            Error::Io(error) => Error::Io(error.clone()),
            Error::Parquet(error) => Error::Parquet(error.clone()),
            Error::NoField { path, field } => Error::NoField {
                path: path.clone(),
                field: field.clone(),
            },
            Error::Unknown(path) => Error::Unknown(path.clone()),
        }
    }
}

/// How the documents of a file are laid out.
#[derive(Debug, Clone, Copy, PartialEq, Eq, Structural)]
pub enum Format {
    Parquet,
    Json,
    Text,
}

/// The format that an extension stands for.
pub open spec fn format_of(path: Seq<char>) -> Option<Format> {
    match path::extension(path) {
        Some(e) => if e == "parquet"@ {
            Some(Format::Parquet)
        } else if e == "jsonl"@ || e == "json"@ {
            Some(Format::Json)
        } else if e == "txt"@ || e == "text"@ || e == "md"@ {
            Some(Format::Text)
        } else {
            None
        },
        None => None,
    }
}

/// The format of a file, by its extension.
pub fn format(path: &str) -> (r: Option<Format>)
    ensures
        r == format_of(path@),
{
    match path::extension_of(path) {
        Some(e) => if text::same_chars(&e, &text::chars_of("parquet")) {
            Some(Format::Parquet)
        } else if text::same_chars(&e, &text::chars_of("jsonl")) || text::same_chars(
            &e,
            &text::chars_of("json"),
        ) {
            Some(Format::Json)
        } else if text::same_chars(&e, &text::chars_of("txt")) || text::same_chars(
            &e,
            &text::chars_of("text"),
        ) || text::same_chars(&e, &text::chars_of("md")) {
            Some(Format::Text)
        } else {
            None
        },
        None => None,
    }
}

/// Whether a file can be read as documents.
pub fn supported(path: &str) -> (r: bool)
    ensures
        r == format_of(path@).is_some(),
{
    format(path).is_some()
}

/// What a walk of a directory came by.
pub enum Entry {
    /// A file.
    File(String),
    /// Something that cannot be read, and why.
    Unreadable(String),
}

/// What a root of a corpus turned out to be.
pub enum Root {
    /// A file that was named itself.
    File(String),
    /// Anything else, walked recursively.
    Tree(Vec<Entry>),
}

/// The files of a walk that can be read as documents.
pub open spec fn supported_files(entries: Seq<Entry>) -> Seq<String>
    decreases entries.len(),
{
    if entries.len() == 0 {
        Seq::empty()
    } else {
        match entries.last() {
            Entry::File(path) => if format_of(path@) is Some {
                supported_files(entries.drop_last()).push(path)
            } else {
                supported_files(entries.drop_last())
            },
            Entry::Unreadable(_) => supported_files(entries.drop_last()),
        }
    }
}

/// The files of a corpus, in the order in which they were come by.
pub open spec fn found(roots: Seq<Root>) -> Seq<String>
    decreases roots.len(),
{
    if roots.len() == 0 {
        Seq::empty()
    } else {
        match roots.last() {
            Root::File(path) => found(roots.drop_last()).push(path),
            Root::Tree(entries) => found(roots.drop_last()) + supported_files(entries@),
        }
    }
}

/// Why a walk broke off.
pub open spec fn walk_failure(entries: Seq<Entry>) -> Option<String>
    decreases entries.len(),
{
    if entries.len() == 0 {
        None
    } else {
        match walk_failure(entries.drop_last()) {
            Some(why) => Some(why),
            None => match entries.last() {
                Entry::File(_) => None,
                Entry::Unreadable(why) => Some(why),
            },
        }
    }
}

/// Why the first walk that broke off did.
pub open spec fn failure(roots: Seq<Root>) -> Option<String>
    decreases roots.len(),
{
    if roots.len() == 0 {
        None
    } else {
        match failure(roots.drop_last()) {
            Some(why) => Some(why),
            None => match roots.last() {
                Root::File(_) => None,
                Root::Tree(entries) => walk_failure(entries@),
            },
        }
    }
}

proof fn walk_failure_stays(entries: Seq<Entry>, upto: int)
    requires
        0 <= upto <= entries.len(),
        walk_failure(entries.take(upto)) is Some,
    ensures
        walk_failure(entries) == walk_failure(entries.take(upto)),
    decreases entries.len(),
{
    if upto == entries.len() {
        assert(entries.take(upto) =~= entries);
    } else {
        assert(entries.drop_last().take(upto) =~= entries.take(upto));
        walk_failure_stays(entries.drop_last(), upto);
    }
}

proof fn failure_stays(roots: Seq<Root>, upto: int)
    requires
        0 <= upto <= roots.len(),
        failure(roots.take(upto)) is Some,
    ensures
        failure(roots) == failure(roots.take(upto)),
    decreases roots.len(),
{
    if upto == roots.len() {
        assert(roots.take(upto) =~= roots);
    } else {
        assert(roots.drop_last().take(upto) =~= roots.take(upto));
        failure_stays(roots.drop_last(), upto);
    }
}

/// Add the documents of a walk.
fn collect(entries: &Vec<Entry>, out: &mut Vec<String>) -> (r: Result<(), Error>)
    ensures
        match walk_failure(entries@) {
            Some(why) => r == Err::<(), Error>(Error::Io(why)),
            None => r is Ok && final(out)@ == old(out)@ + supported_files(entries@),
        },
{
    let mut i: usize = 0;
    assert(out@ =~= old(out)@ + supported_files(entries@.take(0)));
    while i < entries.len()
        invariant
            i <= entries.len(),
            walk_failure(entries@.take(i as int)) is None,
            out@ == old(out)@ + supported_files(entries@.take(i as int)),
        decreases entries.len() - i,
    {
        assert(entries@.take(i + 1).drop_last() =~= entries@.take(i as int));
        match &entries[i] {
            Entry::File(path) => {
                if supported(path.as_str()) {
                    out.push(path.clone());
                }
            },
            Entry::Unreadable(why) => {
                proof {
                    walk_failure_stays(entries@, i + 1);
                }
                return Err(Error::Io(why.clone()));
            },
        }
        i = i + 1;
        assert(out@ =~= old(out)@ + supported_files(entries@.take(i as int)));
    }
    assert(entries@.take(i as int) =~= entries@);
    Ok(())
}

/// A set of document files, walked in sorted order so a run is reproducible.
pub struct Corpus {
    pub paths: Vec<String>,
    pub field: String,
}

impl Corpus {
    /// Collect every supported document file under `roots`.
    ///
    /// `field` names the parquet column or JSON key holding the document text.
    /// Unsupported files inside a directory are ignored; an unsupported file
    /// named explicitly is retained so that reading it reports the mistake.
    pub fn open(roots: &Vec<Root>, field: &str) -> (r: Result<Self, Error>)
        ensures
            match failure(roots@) {
                Some(why) => r == Err::<Self, Error>(Error::Io(why)),
                None => r matches Ok(corpus) && path::sorted(corpus.paths@)
                    && corpus.paths@.to_multiset() == found(roots@).to_multiset()
                    && corpus.field@ == field@,
            },
    {
        let mut paths: Vec<String> = Vec::new();
        let mut i: usize = 0;
        assert(paths@ =~= found(roots@.take(0)));
        while i < roots.len()
            invariant
                i <= roots.len(),
                failure(roots@.take(i as int)) is None,
                paths@ == found(roots@.take(i as int)),
            decreases roots.len() - i,
        {
            assert(roots@.take(i + 1).drop_last() =~= roots@.take(i as int));
            match &roots[i] {
                Root::File(path) => {
                    paths.push(path.clone());
                },
                Root::Tree(entries) => {
                    match collect(entries, &mut paths) {
                        Ok(()) => {},
                        Err(e) => {
                            proof {
                                failure_stays(roots@, i + 1);
                            }
                            return Err(e);
                        },
                    }
                },
            }
            i = i + 1;
        }
        assert(roots@.take(i as int) =~= roots@);
        Ok(Corpus { paths: path::sort(paths), field: field.to_owned() })
    }

    /// The files, in the order in which they are read.
    pub fn files(&self) -> (r: &Vec<String>)
        ensures
            *r == self.paths,
    {
        &self.paths
    }

    /// Every document in every file, in path order. A file that cannot be
    /// opened yields exactly one error, so one corrupt file does not end the
    /// stream.
    pub fn docs(&self, contents: &Vec<Content>) -> (out: Vec<Result<String, Error>>)
        requires
            contents.len() == self.paths.len(),
            forall|i: int|
                0 <= i < contents.len() ==> (#[trigger] contents[i]).suits(
                    format_of(self.paths[i]@),
                ),
        ensures
            told_all(out@, stream(texts(self.paths@), self.field@, contents@)),
    {
        let mut out: Vec<Result<String, Error>> = Vec::new();
        let ghost paths = texts(self.paths@);
        let mut i: usize = 0;
        while i < contents.len()
            invariant
                paths == texts(self.paths@),
                i <= contents.len() == self.paths.len(),
                forall|i: int|
                    0 <= i < contents.len() ==> (#[trigger] contents[i]).suits(
                        format_of(self.paths[i]@),
                    ),
                told_all(out@, stream(paths.take(i as int), self.field@, contents@.take(i as int))),
            decreases contents.len() - i,
        {
            proof {
                assert(paths.take(i + 1).drop_last() =~= paths.take(i as int));
                assert(contents@.take(i + 1).drop_last() =~= contents@.take(i as int));
                assert(contents[i as int].suits(format_of(self.paths[i as int]@)));
            }
            let mut docs = reader(self.paths[i].as_str(), self.field.as_str(), &contents[i]);
            out.append(&mut docs);
            i = i + 1;
        }
        assert(paths.take(i as int) =~= paths);
        assert(contents@.take(i as int) =~= contents@);
        out
    }
}

/// The rows of a parquet file, as far as it can be read.
pub struct Table {
    /// The names of its columns.
    pub columns: Vec<String>,
    /// The strings in the requested column, where the file has it, or why its
    /// rows cannot be read.
    pub rows: Result<Vec<Result<String, String>>, String>,
}

/// Why a parquet file cannot be opened.
pub enum Unopened {
    Io(String),
    Parquet(String),
}

/// What reading a file brought, by its format.
pub enum Content {
    /// A parquet file.
    Parquet(Result<Table, Unopened>),
    /// A file of lines, or why it cannot be opened; each line, or why it cannot
    /// be read.
    Lines(Result<Vec<Result<String, String>>, String>),
    /// The text of the file, or why it cannot be read.
    Text(Result<String, String>),
    /// A file that nothing reads.
    Unread,
}

impl Content {
    /// It was read as its format asks.
    pub open spec fn suits(self, format: Option<Format>) -> bool {
        match format {
            Some(Format::Parquet) => self is Parquet,
            Some(Format::Json) => self is Lines,
            Some(Format::Text) => self is Text,
            None => true,
        }
    }
}

/// An error, by its texts.
pub enum Failure {
    Io(Seq<char>),
    Parquet(Seq<char>),
    NoField { path: Seq<char>, field: Seq<char> },
    Unknown(Seq<char>),
}

impl View for Error {
    type V = Failure;

    open spec fn view(&self) -> Failure {
        match *self {
            Error::Io(error) => Failure::Io(error@),
            Error::Parquet(error) => Failure::Parquet(error@),
            Error::NoField { path, field } => Failure::NoField { path: path@, field: field@ },
            Error::Unknown(path) => Failure::Unknown(path@),
        }
    }
}

/// A document, or what stands in its place.
pub type Doc = Result<Seq<char>, Failure>;

/// A document by its text, an error by its texts.
pub open spec fn doc(r: Result<String, Error>) -> Doc {
    match r {
        Ok(text) => Ok(text@),
        Err(error) => Err(error@),
    }
}

/// `out` holds `docs`, one for one.
pub open spec fn told_all(out: Seq<Result<String, Error>>, docs: Seq<Doc>) -> bool {
    out.len() == docs.len() && forall|i: int| 0 <= i < out.len() ==> doc(#[trigger] out[i]) == docs[i]
}

/// The texts of a list of strings.
pub open spec fn texts(names: Seq<String>) -> Seq<Seq<char>> {
    names.map_values(|name: String| name@)
}

/// The text that a line of JSON holds under `field`: `None` where it holds none
/// there, an error where the line is no JSON.
pub open spec fn json_text(line: Seq<char>, field: Seq<char>) -> Result<
    Option<Seq<char>>,
    Seq<char>,
> {
    match json::text_value(line) {
        Ok(value) => match json::field(value, field) {
            Some(held) => Ok(json::text_of(held)),
            None => Ok(None),
        },
        Err(why) => Err(why),
    }
}

/// The text that a line of JSON holds under `field`.
fn json_field(line: &str, field: &str) -> (r: Result<Option<String>, String>)
    ensures
        match (r, json_text(line@, field@)) {
            (Ok(Some(text)), Ok(Some(s))) => text@ == s,
            (Ok(None), Ok(None)) => true,
            (Err(e), Err(s)) => e@ == s,
            _ => false,
        },
{
    match json::parse_text(line) {
        Ok(value) => match json::get(&value, field) {
            Some(held) => match json::text(held) {
                Some(text) => Ok(Some(text.to_owned())),
                None => Ok(None),
            },
            None => Ok(None),
        },
        Err(why) => Err(why),
    }
}

/// Whether a line holds white space alone.
pub open spec fn blank(line: Seq<char>) -> bool {
    forall|i: int| 0 <= i < line.len() ==> text::is_space(#[trigger] line[i])
}

fn is_blank(line: &str) -> (r: bool)
    ensures
        r == blank(line@),
{
    let chars = text::chars_of(line);
    let mut i: usize = 0;
    while i < chars.len()
        invariant
            chars@ == line@,
            i <= chars.len(),
            forall|k: int| 0 <= k < i ==> text::is_space(#[trigger] line@[k]),
        decreases chars.len() - i,
    {
        if !text::space(chars[i]) {
            assert(!text::is_space(line@[i as int]));
            return false;
        }
        i = i + 1;
    }
    true
}

/// The document that the parse of a line gives.
pub open spec fn parsed_doc(
    path: Seq<char>,
    field: Seq<char>,
    parsed: Result<Option<Seq<char>>, Seq<char>>,
) -> Doc {
    match parsed {
        Ok(Some(text)) => Ok(text),
        Ok(None) => Err(Failure::NoField { path, field }),
        Err(why) => Err(Failure::Io(why)),
    }
}

/// The document that the parse of a line gives.
pub fn line_text(path: &str, field: &str, parsed: Result<Option<String>, String>) -> (r: Result<
    String,
    Error,
>)
    ensures
        doc(r) == parsed_doc(
            path@,
            field@,
            match parsed {
                Ok(Some(text)) => Ok(Some(text@)),
                Ok(None) => Ok(None),
                Err(why) => Err(why@),
            },
        ),
{
    match parsed {
        Ok(Some(text)) => Ok(text),
        Ok(None) => Err(Error::NoField { path: path.to_owned(), field: field.to_owned() }),
        Err(why) => Err(Error::Io(why)),
    }
}

/// What one line of a file gives: nothing where it is blank.
pub open spec fn line_docs(
    path: Seq<char>,
    field: Seq<char>,
    line: Result<String, String>,
) -> Seq<Doc> {
    match line {
        Ok(line) => if blank(line@) {
            Seq::empty()
        } else {
            seq![parsed_doc(path, field, json_text(line@, field))]
        },
        Err(why) => seq![Err(Failure::Io(why@))],
    }
}

/// What the lines of a file give.
pub open spec fn lines_docs(
    path: Seq<char>,
    field: Seq<char>,
    lines: Seq<Result<String, String>>,
) -> Seq<Doc>
    decreases lines.len(),
{
    if lines.len() == 0 {
        Seq::empty()
    } else {
        lines_docs(path, field, lines.drop_last()) + line_docs(path, field, lines.last())
    }
}

/// What the rows of a parquet file give.
pub open spec fn rows_docs(rows: Seq<Result<String, String>>) -> Seq<Doc> {
    rows.map_values(
        |row: Result<String, String>|
            match row {
                Ok(text) => Ok(text@),
                Err(why) => Err(Failure::Parquet(why@)),
            },
    )
}

/// What a file gives.
pub open spec fn file_docs(path: Seq<char>, field: Seq<char>, content: Content) -> Seq<Doc> {
    match (format_of(path), content) {
        (Some(Format::Parquet), Content::Parquet(opened)) => match opened {
            Ok(table) => if texts(table.columns@).contains(field) {
                match table.rows {
                    Ok(rows) => rows_docs(rows@),
                    Err(why) => seq![Err(Failure::Parquet(why@))],
                }
            } else {
                seq![Err(Failure::NoField { path, field })]
            },
            Err(Unopened::Io(why)) => seq![Err(Failure::Io(why@))],
            Err(Unopened::Parquet(why)) => seq![Err(Failure::Parquet(why@))],
        },
        (Some(Format::Json), Content::Lines(opened)) => match opened {
            Ok(lines) => lines_docs(path, field, lines@),
            Err(why) => seq![Err(Failure::Io(why@))],
        },
        (Some(Format::Text), Content::Text(read)) => match read {
            Ok(text) => seq![Ok(text@)],
            Err(why) => seq![Err(Failure::Io(why@))],
        },
        _ => seq![Err(Failure::Unknown(path))],
    }
}

/// What the files give, one after the other.
pub open spec fn stream(
    paths: Seq<Seq<char>>,
    field: Seq<char>,
    contents: Seq<Content>,
) -> Seq<Doc>
    decreases contents.len(),
{
    if contents.len() == 0 {
        Seq::empty()
    } else {
        stream(paths.drop_last(), field, contents.drop_last()) + file_docs(
            paths.last(),
            field,
            contents.last(),
        )
    }
}

/// What one line of a file gives: `None` where it is blank.
pub fn line_doc(path: &str, field: &str, line: &Result<String, String>) -> (r: Option<
    Result<String, Error>,
>)
    ensures
        match r {
            Some(d) => line_docs(path@, field@, *line) == seq![doc(d)],
            None => line_docs(path@, field@, *line).len() == 0,
        },
{
    match line {
        Ok(line) => {
            if is_blank(line.as_str()) {
                None
            } else {
                Some(line_text(path, field, json_field(line.as_str(), field)))
            }
        },
        Err(why) => Some(Err(Error::Io(why.clone()))),
    }
}

fn jsonl_docs(path: &str, field: &str, lines: &Vec<Result<String, String>>) -> (out: Vec<
    Result<String, Error>,
>)
    ensures
        told_all(out@, lines_docs(path@, field@, lines@)),
{
    let mut out: Vec<Result<String, Error>> = Vec::new();
    let mut i: usize = 0;
    while i < lines.len()
        invariant
            i <= lines.len(),
            told_all(out@, lines_docs(path@, field@, lines@.take(i as int))),
        decreases lines.len() - i,
    {
        assert(lines@.take(i + 1).drop_last() =~= lines@.take(i as int));
        match line_doc(path, field, &lines[i]) {
            Some(d) => {
                out.push(d);
            },
            None => {
                assert(lines_docs(path@, field@, lines@.take(i + 1)) =~= lines_docs(
                    path@,
                    field@,
                    lines@.take(i as int),
                ));
            },
        }
        i = i + 1;
    }
    assert(lines@.take(i as int) =~= lines@);
    out
}

/// Whether a parquet file has a column.
pub fn has_column(columns: &Vec<String>, field: &str) -> (r: bool)
    ensures
        r == texts(columns@).contains(field@),
{
    let mut i: usize = 0;
    while i < columns.len()
        invariant
            i <= columns.len(),
            forall|k: int| 0 <= k < i ==> texts(columns@)[k] != field@,
        decreases columns.len() - i,
    {
        if text::same(columns[i].as_str(), field) {
            assert(texts(columns@)[i as int] == field@);
            return true;
        }
        i = i + 1;
    }
    false
}

fn parquet_docs(path: &str, field: &str, table: &Table) -> (out: Vec<Result<String, Error>>)
    requires
        format_of(path@) == Some(Format::Parquet),
    ensures
        told_all(out@, file_docs(path@, field@, Content::Parquet(Ok(*table)))),
{
    let mut out: Vec<Result<String, Error>> = Vec::new();
    if !has_column(&table.columns, field) {
        out.push(Err(Error::NoField { path: path.to_owned(), field: field.to_owned() }));
        return out;
    }
    match &table.rows {
        Ok(rows) => {
            let mut i: usize = 0;
            while i < rows.len()
                invariant
                    i <= rows.len(),
                    told_all(out@, rows_docs(rows@.take(i as int))),
                decreases rows.len() - i,
            {
                match &rows[i] {
                    Ok(text) => {
                        out.push(Ok(text.clone()));
                    },
                    Err(why) => {
                        out.push(Err(Error::Parquet(why.clone())));
                    },
                }
                i = i + 1;
                assert(rows_docs(rows@.take(i as int)) =~= rows_docs(rows@.take(i - 1)).push(
                    rows_docs(rows@)[i - 1],
                ));
            }
            assert(rows@.take(i as int) =~= rows@);
        },
        Err(why) => {
            out.push(Err(Error::Parquet(why.clone())));
        },
    }
    out
}

/// The documents of one file.
pub fn reader(path: &str, field: &str, content: &Content) -> (out: Vec<Result<String, Error>>)
    requires
        content.suits(format_of(path@)),
    ensures
        told_all(out@, file_docs(path@, field@, *content)),
{
    let mut out: Vec<Result<String, Error>> = Vec::new();
    match (format(path), content) {
        (Some(Format::Parquet), Content::Parquet(opened)) => match opened {
            Ok(table) => {
                return parquet_docs(path, field, table);
            },
            Err(Unopened::Io(why)) => {
                out.push(Err(Error::Io(why.clone())));
            },
            Err(Unopened::Parquet(why)) => {
                out.push(Err(Error::Parquet(why.clone())));
            },
        },
        (Some(Format::Json), Content::Lines(opened)) => match opened {
            Ok(lines) => {
                return jsonl_docs(path, field, lines);
            },
            Err(why) => {
                out.push(Err(Error::Io(why.clone())));
            },
        },
        (Some(Format::Text), Content::Text(read)) => match read {
            Ok(text) => {
                out.push(Ok(text.clone()));
            },
            Err(why) => {
                out.push(Err(Error::Io(why.clone())));
            },
        },
        _ => {
            out.push(Err(Error::Unknown(path.to_owned())));
        },
    }
    out
}

/// The documents that could be read, up to `limit` of them.
pub open spec fn readable_docs(docs: Seq<Doc>, limit: nat) -> Seq<Seq<char>>
    decreases docs.len(),
{
    if docs.len() == 0 || limit == 0 {
        Seq::empty()
    } else {
        match docs[0] {
            Ok(text) => seq![text] + readable_docs(docs.drop_first(), (limit - 1) as nat),
            Err(_) => readable_docs(docs.drop_first(), limit),
        }
    }
}

/// By what the documents are told.
pub open spec fn told(docs: Seq<Result<String, Error>>) -> Seq<Doc> {
    docs.map_values(|d: Result<String, Error>| doc(d))
}

/// The documents to fit a vocabulary on: those that could be read, up to
/// `limit` of them.
pub fn readable(docs: &Vec<Result<String, Error>>, limit: usize) -> (out: Vec<String>)
    ensures
        texts(out@) == readable_docs(told(docs@), limit as nat),
{
    let ghost all = told(docs@);
    let mut out: Vec<String> = Vec::new();
    let mut i: usize = 0;
    proof {
        assert(all.skip(0) =~= all);
        assert(texts(out@) =~= Seq::empty());
        assert(readable_docs(all, limit as nat) =~= texts(out@) + readable_docs(
            all.skip(0),
            limit as nat,
        ));
    }
    while i < docs.len() && out.len() < limit
        invariant
            i <= docs.len(),
            out.len() <= limit,
            all == told(docs@),
            readable_docs(all, limit as nat) == texts(out@) + readable_docs(
                all.skip(i as int),
                (limit - out.len()) as nat,
            ),
        decreases docs.len() - i,
    {
        let ghost rest = all.skip(i as int);
        let ghost before = out@;
        assert(rest.drop_first() =~= all.skip(i + 1));
        assert(rest[0] == doc(docs@[i as int]));
        if let Ok(text) = &docs[i] {
            out.push(text.clone());
            proof {
                assert(texts(out@) =~= texts(before).push(text@));
                assert(texts(out@) + readable_docs(
                    all.skip(i + 1),
                    (limit - out.len()) as nat,
                ) =~= texts(before) + (seq![text@] + readable_docs(
                    all.skip(i + 1),
                    (limit - out.len()) as nat,
                )));
            }
        }
        i = i + 1;
    }
    assert(texts(out@) + Seq::<Seq<char>>::empty() =~= texts(out@));
    out
}

impl Content {
    /// The file could not be opened, or not be read at all.
    pub open spec fn unopened(self) -> bool {
        match self {
            Content::Parquet(opened) => opened is Err,
            Content::Lines(opened) => opened is Err,
            Content::Text(read) => read is Err,
            Content::Unread => true,
        }
    }
}

/// A file that cannot be opened yields exactly one error, and the files around
/// it yield what they yield without it.
pub proof fn an_unopened_file_is_one_error(
    before: Seq<Seq<char>>,
    path: Seq<char>,
    after: Seq<Seq<char>>,
    field: Seq<char>,
    read_before: Seq<Content>,
    content: Content,
    read_after: Seq<Content>,
)
    requires
        before.len() == read_before.len(),
        after.len() == read_after.len(),
        content.unopened() || format_of(path) is None,
    ensures
        exists|failure: Failure| #[trigger]
            stream(
                before.push(path) + after,
                field,
                read_before.push(content) + read_after,
            ) == stream(before, field, read_before) + seq![Err::<Seq<char>, Failure>(failure)]
                + stream(after, field, read_after),
    decreases read_after.len(),
{
    let one = file_docs(path, field, content);
    assert(one.len() == 1 && one[0] is Err);
    let failure = one[0]->Err_0;
    stream_concat(before.push(path), field, read_before.push(content), after, read_after);
    assert(before.push(path).drop_last() =~= before);
    assert(read_before.push(content).drop_last() =~= read_before);
    assert(one =~= seq![Err::<Seq<char>, Failure>(failure)]);
}

proof fn stream_concat(
    a: Seq<Seq<char>>,
    field: Seq<char>,
    read_a: Seq<Content>,
    b: Seq<Seq<char>>,
    read_b: Seq<Content>,
)
    requires
        a.len() == read_a.len(),
        b.len() == read_b.len(),
    ensures
        stream(a + b, field, read_a + read_b) == stream(a, field, read_a) + stream(
            b,
            field,
            read_b,
        ),
    decreases read_b.len(),
{
    if read_b.len() == 0 {
        assert(a + b =~= a);
        assert(read_a + read_b =~= read_a);
        assert(stream(a, field, read_a) + stream(b, field, read_b) =~= stream(a, field, read_a));
    } else {
        assert((a + b).drop_last() =~= a + b.drop_last());
        assert((read_a + read_b).drop_last() =~= read_a + read_b.drop_last());
        stream_concat(a, field, read_a, b.drop_last(), read_b.drop_last());
        assert(stream(a + b, field, read_a + read_b) =~= stream(a, field, read_a) + stream(
            b,
            field,
            read_b,
        ));
    }
}

/// Files are read as what their extensions say: `parquet`, JSON Lines, or plain
/// text, which Markdown is too. Nothing else is supported.
pub proof fn extensions_say_the_format(path: &str, r: Option<Format>, readable: bool)
    requires
        call_ensures(format, (path,), r),
        call_ensures(supported, (path,), readable),
    ensures
        ({
            let e = path::extension(path@);
            &&& e is None ==> r is None
            &&& e is Some ==> (r == Some(Format::Parquet) <==> e->0 == "parquet"@)
            &&& e is Some ==> (r == Some(Format::Json) <==> e->0 == "json"@ || e->0 == "jsonl"@)
            &&& e is Some ==> (r == Some(Format::Text) <==> e->0 == "txt"@ || e->0 == "text"@ || e->0
                == "md"@)
            &&& readable <==> r is Some
        }),
{
    reveal_strlit("parquet");
    reveal_strlit("json");
    reveal_strlit("jsonl");
    reveal_strlit("txt");
    reveal_strlit("text");
    reveal_strlit("md");
    assert("parquet"@.len() == 7 && "json"@.len() == 4 && "jsonl"@.len() == 5 && "txt"@.len() == 3
        && "text"@.len() == 4 && "md"@.len() == 2);
    assert("json"@[0] == 'j' && "text"@[0] == 't');
}

/// `file` lies in a tree, and can be read as documents.
pub open spec fn lies_in(entries: Seq<Entry>, file: String) -> bool {
    exists|k: int|
        0 <= k < entries.len() && #[trigger] entries[k] == Entry::File(file) && format_of(file@)
            is Some
}

/// `file` belongs to a corpus under these roots: it is one of them, or lies in one.
pub open spec fn belongs(roots: Seq<Root>, file: String) -> bool {
    exists|k: int|
        0 <= k < roots.len() && match #[trigger] roots[k] {
            Root::File(path) => path == file,
            Root::Tree(entries) => lies_in(entries@, file),
        }
}

proof fn supported_files_lie_in(entries: Seq<Entry>, file: String)
    ensures
        supported_files(entries).contains(file) <==> lies_in(entries, file),
    decreases entries.len(),
{
    if entries.len() > 0 {
        let rest = entries.drop_last();
        supported_files_lie_in(rest, file);
        let (all, some) = (supported_files(entries), supported_files(rest));
        if all.contains(file) {
            let k = choose|k: int| 0 <= k < all.len() && all[k] == file;
            if k < some.len() {
                assert(some[k] == file);
                let j = choose|j: int|
                    0 <= j < rest.len() && #[trigger] rest[j] == Entry::File(file);
                assert(entries[j] == Entry::File(file));
            } else {
                assert(entries[entries.len() - 1] == Entry::File(file));
            }
        }
        if lies_in(entries, file) {
            let j = choose|j: int|
                0 <= j < entries.len() && #[trigger] entries[j] == Entry::File(file) && format_of(
                    file@,
                ) is Some;
            if j < rest.len() {
                assert(rest[j] == Entry::File(file));
                let k = choose|k: int| 0 <= k < some.len() && some[k] == file;
                assert(all[k] == file);
            } else {
                assert(all[some.len() as int] == file);
            }
        }
    }
}

proof fn found_files_belong(roots: Seq<Root>, file: String)
    ensures
        found(roots).contains(file) <==> belongs(roots, file),
    decreases roots.len(),
{
    if roots.len() > 0 {
        let rest = roots.drop_last();
        found_files_belong(rest, file);
        let (all, some) = (found(roots), found(rest));
        let n = roots.len() - 1;
        if let Root::Tree(entries) = roots.last() {
            supported_files_lie_in(entries@, file);
        }
        if all.contains(file) {
            let k = choose|k: int| 0 <= k < all.len() && all[k] == file;
            if k < some.len() {
                assert(some[k] == file);
                let j = choose|j: int|
                    0 <= j < rest.len() && match #[trigger] rest[j] {
                        Root::File(path) => path == file,
                        Root::Tree(entries) => lies_in(entries@, file),
                    };
                assert(roots[j] == rest[j]);
            } else {
                if let Root::Tree(entries) = roots.last() {
                    assert(supported_files(entries@)[k - some.len()] == file);
                }
                assert(roots[n] == roots.last());
            }
        }
        if belongs(roots, file) {
            let j = choose|j: int|
                0 <= j < roots.len() && match #[trigger] roots[j] {
                    Root::File(path) => path == file,
                    Root::Tree(entries) => lies_in(entries@, file),
                };
            if j < rest.len() {
                assert(rest[j] == roots[j]);
                let k = choose|k: int| 0 <= k < some.len() && some[k] == file;
                assert(all[k] == file);
            } else if let Root::Tree(entries) = roots.last() {
                let own = supported_files(entries@);
                let k = choose|k: int| 0 <= k < own.len() && own[k] == file;
                assert(all[some.len() + k] == file);
            } else {
                assert(all[some.len() as int] == file);
            }
        }
    }
}

proof fn walk_failure_is_first(entries: Seq<Entry>)
    ensures
        match walk_failure(entries) {
            Some(why) => exists|k: int|
                {
                    &&& 0 <= k < entries.len()
                    &&& #[trigger] entries[k] == Entry::Unreadable(why)
                    &&& forall|j: int| 0 <= j < k ==> (#[trigger] entries[j]) is File
                },
            None => forall|j: int| 0 <= j < entries.len() ==> (#[trigger] entries[j]) is File,
        },
    decreases entries.len(),
{
    if entries.len() > 0 {
        let rest = entries.drop_last();
        walk_failure_is_first(rest);
        let n = entries.len() - 1;
        assert forall|j: int| 0 <= j < n && rest[j] is File implies (#[trigger] entries[j])
            is File by {
            assert(rest[j] == entries[j]);
        }
        if let Some(why) = walk_failure(rest) {
            let k = choose|k: int|
                {
                    &&& 0 <= k < rest.len()
                    &&& #[trigger] rest[k] == Entry::Unreadable(why)
                    &&& forall|j: int| 0 <= j < k ==> (#[trigger] rest[j]) is File
                };
            assert(entries[k] == Entry::Unreadable(why));
        } else if let Entry::Unreadable(why) = entries.last() {
            assert(entries[n] == Entry::Unreadable(why));
        }
    }
}

/// A corpus holds the files that were named, whatever they are, and those that lie
/// in the directories that were named and can be read, in the order of their paths.
pub proof fn corpora_hold_what_can_be_read(
    roots: Vec<Root>,
    field: &str,
    corpus: Corpus,
    file: String,
)
    requires
        call_ensures(Corpus::open, (&roots, field), Ok(corpus)),
    ensures
        corpus.paths@.contains(file) <==> belongs(roots@, file),
        path::sorted(corpus.paths@),
        corpus.field@ == field@,
{
    found_files_belong(roots@, file);
    let (a, b) = (corpus.paths@, found(roots@));
    a.to_multiset_ensures();
    b.to_multiset_ensures();
    assert(a.contains(file) <==> a.to_multiset().count(file) > 0);
    assert(b.contains(file) <==> b.to_multiset().count(file) > 0);
}

/// A walk that breaks off anywhere is reported, by what broke it off first; where
/// none does, a corpus opens.
pub proof fn broken_walks_are_reported(
    roots: Vec<Root>,
    field: &str,
    r: Result<Corpus, Error>,
    tree: int,
    k: int,
)
    requires
        call_ensures(Corpus::open, (&roots, field), r),
        0 <= tree < roots@.len(),
        roots@[tree] is Tree,
        0 <= k < roots@[tree]->Tree_0@.len(),
        forall|t: int, j: int|
            #![trigger roots@[t]->Tree_0@[j]]
            0 <= t < roots@.len() && roots@[t] is Tree && 0 <= j < roots@[t]->Tree_0@.len() && (t
                < tree || (t == tree && j < k)) ==> roots@[t]->Tree_0@[j] is File,
    ensures
        roots@[tree]->Tree_0@[k] matches Entry::Unreadable(why) ==> r == Err::<Corpus, Error>(
            Error::Io(why),
        ),
{
    if let Entry::Unreadable(why) = roots@[tree]->Tree_0@[k] {
        first_failure(roots@, tree, k, why);
    }
}

proof fn no_failure(roots: Seq<Root>)
    requires
        forall|t: int, j: int|
            #![trigger roots[t]->Tree_0@[j]]
            0 <= t < roots.len() && roots[t] is Tree && 0 <= j < roots[t]->Tree_0@.len()
                ==> roots[t]->Tree_0@[j] is File,
    ensures
        failure(roots) is None,
    decreases roots.len(),
{
    if roots.len() > 0 {
        let rest = roots.drop_last();
        assert forall|t: int, j: int|
            #![trigger rest[t]->Tree_0@[j]]
            0 <= t < rest.len() && rest[t] is Tree && 0 <= j
                < rest[t]->Tree_0@.len() implies rest[t]->Tree_0@[j] is File by {
            assert(roots[t]->Tree_0@[j] is File);
        }
        no_failure(rest);
        if let Root::Tree(entries) = roots.last() {
            walk_failure_is_first(entries@);
            if let Some(why) = walk_failure(entries@) {
                let k = choose|k: int|
                    0 <= k < entries@.len() && #[trigger] entries@[k] == Entry::Unreadable(why);
                assert(roots[roots.len() - 1]->Tree_0@[k] is File);
            }
        }
    }
}

proof fn first_failure(roots: Seq<Root>, tree: int, k: int, why: String)
    requires
        0 <= tree < roots.len(),
        roots[tree] is Tree,
        0 <= k < roots[tree]->Tree_0@.len(),
        roots[tree]->Tree_0@[k] == Entry::Unreadable(why),
        forall|t: int, j: int|
            #![trigger roots[t]->Tree_0@[j]]
            0 <= t < roots.len() && roots[t] is Tree && 0 <= j < roots[t]->Tree_0@.len() && (t < tree
                || (t == tree && j < k)) ==> roots[t]->Tree_0@[j] is File,
    ensures
        failure(roots) == Some(why),
{
    let upto = roots.take(tree + 1);
    let before = roots.take(tree);
    assert(upto.drop_last() =~= before);
    assert forall|t: int, j: int|
        #![trigger before[t]->Tree_0@[j]]
        0 <= t < before.len() && before[t] is Tree && 0 <= j
            < before[t]->Tree_0@.len() implies before[t]->Tree_0@[j] is File by {
        assert(roots[t]->Tree_0@[j] is File);
    }
    no_failure(before);
    let entries = roots[tree]->Tree_0@;
    walk_failure_is_first(entries);
    assert(entries[k] is Unreadable);
    let at = choose|at: int|
        {
            &&& 0 <= at < entries.len()
            &&& #[trigger] entries[at] == Entry::Unreadable(walk_failure(entries)->0)
            &&& forall|j: int| 0 <= j < at ==> (#[trigger] entries[j]) is File
        };
    if at < k {
        assert(roots[tree]->Tree_0@[at] is File);
    }
    assert(at == k);
    assert(failure(upto) == Some(why));
    failure_stays(roots, tree + 1);
}

/// A line gives nothing where it is blank, its text where it is JSON and has one
/// under the field, and otherwise the reason why it has none.
pub proof fn lines_give_their_texts(
    path: &str,
    field: &str,
    line: Result<String, String>,
    r: Option<Result<String, Error>>,
)
    requires
        call_ensures(line_doc, (path, field, &line), r),
    ensures
        r is None <==> line is Ok && forall|i: int|
            0 <= i < line->Ok_0@.len() ==> text::is_space(#[trigger] line->Ok_0@[i]),
        line is Err ==> r is Some && doc(r->0) == Err::<Seq<char>, Failure>(
            Failure::Io(line->Err_0@),
        ),
        r is Some && line is Ok ==> match json::text_value(line->Ok_0@) {
            Err(why) => doc(r->0) == Err::<Seq<char>, Failure>(Failure::Io(why)),
            Ok(value) => {
                let held = json::field(value, field@);
                if held is Some && json::text_of(held->0) is Some {
                    doc(r->0) == Ok::<Seq<char>, Failure>(json::text_of(held->0)->0)
                } else {
                    doc(r->0) == Err::<Seq<char>, Failure>(
                        Failure::NoField { path: path@, field: field@ },
                    )
                }
            },
        },
{
    let docs = line_docs(path@, field@, line);
    if r is Some {
        assert(docs == seq![doc(r->0)]);
        assert(docs[0] == doc(r->0));
        assert(docs.len() == 1);
    }
}

/// A file of lines gives what its lines give, one after the other.
pub proof fn files_of_lines_give_their_lines(
    path: Seq<char>,
    field: Seq<char>,
    a: Seq<Result<String, String>>,
    b: Seq<Result<String, String>>,
)
    ensures
        lines_docs(path, field, a + b) == lines_docs(path, field, a) + lines_docs(path, field, b),
        a.len() == 1 ==> lines_docs(path, field, a) == line_docs(path, field, a[0]),
        a.len() == 0 ==> lines_docs(path, field, a).len() == 0,
    decreases b.len(),
{
    if b.len() == 0 {
        assert(a + b =~= a);
        assert(lines_docs(path, field, a) + lines_docs(path, field, b) =~= lines_docs(
            path,
            field,
            a,
        ));
    } else {
        let rest = b.drop_last();
        files_of_lines_give_their_lines(path, field, a, rest);
        assert((a + b).drop_last() =~= a + rest);
        assert((a + b).last() == b.last());
        assert(lines_docs(path, field, a + b) =~= lines_docs(path, field, a) + lines_docs(
            path,
            field,
            b,
        ));
    }
    if a.len() == 1 {
        assert(lines_docs(path, field, a.drop_last()).len() == 0);
        assert(a.last() == a[0]);
        assert(lines_docs(path, field, a) =~= line_docs(path, field, a[0]));
    }
}

/// A text file is one document. A parquet file gives a document for each of its
/// rows, in their order, where it has the column, and is one error where it has
/// not; a file of lines gives what they give. A file of any other kind is one error
/// with its path.
pub proof fn files_give_their_documents(
    path: &str,
    field: &str,
    content: Content,
    out: Vec<Result<String, Error>>,
    kind: Option<Format>,
    i: int,
)
    requires
        call_ensures(reader, (path, field, &content), out),
        call_ensures(format, (path,), kind),
        content.suits(kind),
    ensures
        kind is None ==> out@.len() == 1 && doc(out@[0]) == Err::<Seq<char>, Failure>(
            Failure::Unknown(path@),
        ),
        kind == Some(Format::Text) ==> out@.len() == 1 && doc(out@[0])
            == match content->Text_0 {
            Ok(text) => Ok::<Seq<char>, Failure>(text@),
            Err(why) => Err(Failure::Io(why@)),
        },
        kind == Some(Format::Json) ==> match content->Lines_0 {
            Ok(lines) => told_all(out@, lines_docs(path@, field@, lines@)),
            Err(why) => out@.len() == 1 && doc(out@[0]) == Err::<Seq<char>, Failure>(
                Failure::Io(why@),
            ),
        },
        kind == Some(Format::Parquet) ==> match content->Parquet_0 {
            Ok(table) => {
                let there = exists|k: int|
                    0 <= k < table.columns@.len() && (#[trigger] table.columns@[k])@ == field@;
                &&& !there ==> out@.len() == 1 && doc(out@[0]) == Err::<Seq<char>, Failure>(
                    Failure::NoField { path: path@, field: field@ },
                )
                &&& there ==> match table.rows {
                    Ok(rows) => {
                        &&& out@.len() == rows@.len()
                        &&& 0 <= i < rows@.len() ==> doc(out@[i]) == match rows@[i] {
                            Ok(text) => Ok::<Seq<char>, Failure>(text@),
                            Err(why) => Err(Failure::Parquet(why@)),
                        }
                    },
                    Err(why) => out@.len() == 1 && doc(out@[0]) == Err::<Seq<char>, Failure>(
                        Failure::Parquet(why@),
                    ),
                }
            },
            Err(Unopened::Io(why)) => out@.len() == 1 && doc(out@[0]) == Err::<
                Seq<char>,
                Failure,
            >(Failure::Io(why@)),
            Err(Unopened::Parquet(why)) => out@.len() == 1 && doc(out@[0]) == Err::<
                Seq<char>,
                Failure,
            >(Failure::Parquet(why@)),
        },
{
    let docs = file_docs(path@, field@, content);
    assert(told_all(out@, docs));
    if out@.len() > 0 {
        assert(doc(out@[0]) == docs[0]);
    }
    if kind == Some(Format::Parquet) {
        if let Ok(table) = content->Parquet_0 {
            let names = texts(table.columns@);
            if names.contains(field@) {
                let k = choose|k: int| 0 <= k < names.len() && names[k] == field@;
                assert(table.columns@[k]@ == field@);
            } else {
                assert forall|k: int| 0 <= k < table.columns@.len() implies (
                #[trigger] table.columns@[k])@ != field@ by {
                    assert(names[k] == table.columns@[k]@);
                }
            }
            if 0 <= i < out@.len() {
                assert(doc(out@[i]) == docs[i]);
            }
        }
    }
}

proof fn readable_places(docs: Seq<Doc>, limit: nat) -> (at: Seq<int>)
    ensures
        at.len() == readable_docs(docs, limit).len(),
        at.len() <= limit,
        forall|i: int, j: int| 0 <= i < j < at.len() ==> #[trigger] at[i] < #[trigger] at[j],
        forall|i: int|
            0 <= i < at.len() ==> 0 <= #[trigger] at[i] < docs.len() && docs[at[i]] == Ok::<
                Seq<char>,
                Failure,
            >(readable_docs(docs, limit)[i]),
        forall|k: int|
            0 <= k < docs.len() && (#[trigger] docs[k]) is Ok && (at.len() < limit || (
            at.len() > 0 && k < at.last()))
                ==> at.contains(k),
    decreases docs.len(),
{
    if docs.len() == 0 || limit == 0 {
        Seq::empty()
    } else {
        let rest = docs.drop_first();
        let left = if docs[0] is Ok {
            (limit - 1) as nat
        } else {
            limit
        };
        let before = readable_places(rest, left);
        let moved = Seq::new(before.len(), |i: int| before[i] + 1);
        let at = if docs[0] is Ok {
            seq![0int] + moved
        } else {
            moved
        };
        let shift: int = if docs[0] is Ok {
            1
        } else {
            0
        };
        assert forall|i: int| shift <= i < at.len() implies #[trigger] at[i] == before[i - shift]
            + 1 by {}
        let out = readable_docs(docs, limit);
        assert forall|i: int| 0 <= i < at.len() implies 0 <= #[trigger] at[i] < docs.len()
            && docs[at[i]] == Ok::<Seq<char>, Failure>(out[i]) by {
            if i >= shift {
                assert(rest[before[i - shift]] == docs[at[i]]);
                assert(out[i] == readable_docs(rest, left)[i - shift]);
            }
        }
        assert forall|i: int, j: int| 0 <= i < j < at.len() implies #[trigger] at[i]
            < #[trigger] at[j] by {
            assert(at[j] == before[j - shift] + 1);
            if i >= shift {
                assert(at[i] == before[i - shift] + 1);
                assert(before[i - shift] < before[j - shift]);
            }
        }
        assert forall|k: int|
            0 <= k < docs.len() && (#[trigger] docs[k]) is Ok && (at.len() < limit || (
            at.len() > 0 && k < at.last())) implies at.contains(k) by {
            if k == 0 {
                assert(at[0] == 0);
            } else {
                assert(rest[k - 1] == docs[k]);
                if at.len() >= limit && before.len() > 0 {
                    assert(at.last() == before.last() + 1);
                }
                assert(before.contains(k - 1));
                let i = choose|i: int| 0 <= i < before.len() && before[i] == k - 1;
                assert(at[i + shift] == k);
            }
        }
        at
    }
}

/// A vocabulary is fitted on the first documents that could be read, in their
/// order, as many as the limit permits: none of them is passed over while another
/// behind it is taken. `at` says where they stand.
pub proof fn the_first_readable_documents_are_taken(
    docs: Vec<Result<String, Error>>,
    limit: usize,
    out: Vec<String>,
) -> (at: Seq<int>)
    requires
        call_ensures(readable, (&docs, limit), out),
    ensures
        at.len() == out@.len(),
        out@.len() <= limit,
        forall|i: int, j: int| 0 <= i < j < at.len() ==> #[trigger] at[i] < #[trigger] at[j],
        forall|i: int|
            0 <= i < at.len() ==> 0 <= #[trigger] at[i] < docs@.len() && docs@[at[i]] is Ok
                && docs@[at[i]]->Ok_0@ == out@[i]@,
        forall|k: int|
            0 <= k < docs@.len() && (#[trigger] docs@[k]) is Ok && (at.len() < limit || (
            at.len() > 0 && k < at.last())) ==> at.contains(k),
{
    let all = told(docs@);
    let at = readable_places(all, limit as nat);
    let texts_out = texts(out@);
    assert(texts_out.len() == out@.len());
    assert forall|i: int| 0 <= i < at.len() implies 0 <= #[trigger] at[i] < docs@.len()
        && docs@[at[i]] is Ok && docs@[at[i]]->Ok_0@ == out@[i]@ by {
        assert(all[at[i]] == doc(docs@[at[i]]));
        assert(texts_out[i] == out@[i]@);
    }
    assert forall|k: int|
        0 <= k < docs@.len() && (#[trigger] docs@[k]) is Ok && (at.len() < limit || (
            at.len() > 0 && k < at.last())) implies at.contains(k) by {
        assert(all[k] == doc(docs@[k]));
    }
    at
}

proof fn files_stand_in_order(
    paths: Seq<Seq<char>>,
    field: Seq<char>,
    contents: Seq<Content>,
) -> (at: Seq<int>)
    requires
        paths.len() == contents.len(),
    ensures
        at.len() == contents.len() + 1,
        at[0] == 0,
        at[contents.len() as int] == stream(paths, field, contents).len(),
        forall|i: int|
            0 <= i < contents.len() ==> {
                let own = file_docs(paths[i], field, contents[i]);
                &&& 0 <= #[trigger] at[i]
                &&& at[i + 1] == at[i] + own.len()
                &&& at[i + 1] <= stream(paths, field, contents).len()
                &&& stream(paths, field, contents).subrange(at[i], at[i + 1]) == own
            },
    decreases contents.len(),
{
    if contents.len() == 0 {
        seq![0int]
    } else {
        let n = contents.len() - 1;
        let (p, c) = (paths.drop_last(), contents.drop_last());
        let before = files_stand_in_order(p, field, c);
        let (some, all) = (stream(p, field, c), stream(paths, field, contents));
        let at = before.push(all.len() as int);
        assert forall|i: int| 0 <= i < contents.len() implies {
            let own = file_docs(paths[i], field, contents[i]);
            &&& 0 <= #[trigger] at[i]
            &&& at[i + 1] == at[i] + own.len()
            &&& at[i + 1] <= all.len()
            &&& all.subrange(at[i], at[i + 1]) == own
        } by {
            if i < n {
                assert(at[i] == before[i] && at[i + 1] == before[i + 1]);
                assert(paths[i] == p[i] && contents[i] == c[i]);
                assert(all.subrange(at[i], at[i + 1]) =~= some.subrange(at[i], at[i + 1]));
            } else {
                assert(all.subrange(at[i], at[i + 1]) =~= file_docs(
                    paths[i],
                    field,
                    contents[i],
                ));
            }
        }
        at
    }
}

/// The documents of a corpus are those of its files, file by file in the order in
/// which they are kept, with nothing between them. `at` says where each file starts.
pub proof fn corpora_are_read_file_by_file(
    corpus: Corpus,
    contents: Vec<Content>,
    out: Vec<Result<String, Error>>,
    files: &Vec<String>,
) -> (at: Seq<int>)
    requires
        contents@.len() == corpus.paths@.len(),
        call_ensures(Corpus::docs, (&corpus, &contents), out),
        call_ensures(Corpus::files, (&corpus,), files),
    ensures
        files@ == corpus.paths@,
        at.len() == contents@.len() + 1,
        at[0] == 0,
        at[contents@.len() as int] == out@.len(),
        forall|i: int, j: int|
            #![trigger at[i], out@[j]]
            0 <= i < contents@.len() && at[i] <= j < at[i + 1] ==> 0 <= j < out@.len() && doc(
                out@[j],
            ) == file_docs(corpus.paths@[i]@, corpus.field@, contents@[i])[j - at[i]],
        forall|i: int|
            0 <= i < contents@.len() ==> (#[trigger] at[i]) + file_docs(
                corpus.paths@[i]@,
                corpus.field@,
                contents@[i],
            ).len() == at[i + 1],
{
    let paths = texts(corpus.paths@);
    let docs = stream(paths, corpus.field@, contents@);
    assert(told_all(out@, docs));
    let at = files_stand_in_order(paths, corpus.field@, contents@);
    assert forall|i: int, j: int|
        #![trigger at[i], out@[j]]
        0 <= i < contents@.len() && at[i] <= j < at[i + 1] implies 0 <= j < out@.len() && doc(
        out@[j],
    ) == file_docs(corpus.paths@[i]@, corpus.field@, contents@[i])[j - at[i]] by {
        assert(paths[i] == corpus.paths@[i]@);
        assert(docs.subrange(at[i], at[i + 1])[j - at[i]] == docs[j]);
        assert(doc(out@[j]) == docs[j]);
    }
    assert forall|i: int| 0 <= i < contents@.len() implies (#[trigger] at[i]) + file_docs(
        corpus.paths@[i]@,
        corpus.field@,
        contents@[i],
    ).len() == at[i + 1] by {
        assert(paths[i] == corpus.paths@[i]@);
    }
    at
}

/// An error is told by what it is about: the file and the field that it lacks, or
/// the file that nothing reads; what others report is passed on.
pub proof fn reading_errors_are_told(e: Error, r: String)
    requires
        call_ensures(Error::message, (&e,), r),
    ensures
        match e {
            Error::Io(why) => r@ == why@,
            Error::Parquet(why) => r@ == why@,
            Error::NoField { path, field } => r@ == path@ + " has no field `"@ + field@ + "`"@,
            Error::Unknown(path) => r@ == path@ + ": unknown format"@,
        },
{
}

/// What is found under several roots is what is found under each of them, as often
/// as it is found there; so it is with what lies in a directory.
pub proof fn roots_are_walked_one_by_one(
    a: Seq<Root>,
    b: Seq<Root>,
    root: Root,
    x: Seq<Entry>,
    y: Seq<Entry>,
    entry: Entry,
)
    ensures
        found(a + b) == found(a) + found(b),
        found(seq![root]) == match root {
            Root::File(path) => seq![path],
            Root::Tree(entries) => supported_files(entries@),
        },
        supported_files(x + y) == supported_files(x) + supported_files(y),
        supported_files(seq![entry]) == match entry {
            Entry::File(path) => if format_of(path@) is Some {
                seq![path]
            } else {
                Seq::empty()
            },
            Entry::Unreadable(_) => Seq::empty(),
        },
{
    found_concat(a, b);
    supported_concat(x, y);
    let one = seq![root];
    assert(one.drop_last() =~= Seq::<Root>::empty());
    assert(found(one.drop_last()) == Seq::<String>::empty());
    assert(one.last() == root);
    match root {
        Root::File(path) => {
            assert(found(one) =~= seq![path]);
        },
        Root::Tree(entries) => {
            assert(found(one) =~= supported_files(entries@));
        },
    }
    let only = seq![entry];
    assert(only.drop_last() =~= Seq::<Entry>::empty());
    assert(supported_files(only.drop_last()) == Seq::<String>::empty());
    assert(only.last() == entry);
}

proof fn found_concat(a: Seq<Root>, b: Seq<Root>)
    ensures
        found(a + b) == found(a) + found(b),
    decreases b.len(),
{
    if b.len() == 0 {
        assert(a + b =~= a);
        assert(found(a) + found(b) =~= found(a));
    } else {
        found_concat(a, b.drop_last());
        assert((a + b).drop_last() =~= a + b.drop_last());
        assert((a + b).last() == b.last());
        assert(found(a + b) =~= found(a) + found(b));
    }
}

proof fn supported_concat(a: Seq<Entry>, b: Seq<Entry>)
    ensures
        supported_files(a + b) == supported_files(a) + supported_files(b),
    decreases b.len(),
{
    if b.len() == 0 {
        assert(a + b =~= a);
        assert(supported_files(a) + supported_files(b) =~= supported_files(a));
    } else {
        supported_concat(a, b.drop_last());
        assert((a + b).drop_last() =~= a + b.drop_last());
        assert((a + b).last() == b.last());
        assert(supported_files(a + b) =~= supported_files(a) + supported_files(b));
    }
}

} // verus!
