//! The prompts of a sweep, and what is written down for each.
//!
//! Prompts come as JSON records, one a line, or as plain lines. What else a
//! record says is passed through to the output, so that whoever wrote the
//! prompts gets their own metadata back next to the generation.

use vstd::prelude::*;

use crate::text;

verus! {

/// A record of the `serde_json` crate.
#[verifier::external_type_specification]
#[verifier::external_body]
#[verifier::reject_recursive_types(K)]
#[verifier::reject_recursive_types(V)]
pub struct ExRecord<K, V>(serde_json::Map<K, V>);

/// The keys of a record whose values are strings, with those strings.
pub uninterp spec fn record_texts(record: serde_json::Map<String, serde_json::Value>) -> Map<
    Seq<char>,
    Seq<char>,
>;

/// The keys of a record.
pub uninterp spec fn record_keys(record: serde_json::Map<String, serde_json::Value>) -> Set<
    Seq<char>,
>;

/// The values of a record by its keys.
pub uninterp spec fn record_values(record: serde_json::Map<String, serde_json::Value>) -> Map<
    Seq<char>,
    serde_json::Value,
>;

/// The record that a line of JSON spells, or why it spells none.
pub uninterp spec fn line_record(line: Seq<char>) -> Result<
    serde_json::Map<String, serde_json::Value>,
    Seq<char>,
>;

/// The line of JSON that spells a record, or why there is none.
pub uninterp spec fn record_line(record: serde_json::Map<String, serde_json::Value>) -> Result<
    Seq<char>,
    Seq<char>,
>;

/// `serde_json::from_str`, into a map from strings to values.
#[verifier::external_body]
fn parse_record(line: &str) -> (r: Result<serde_json::Map<String, serde_json::Value>, String>)
    ensures
        match (r, line_record(line@)) {
            (Ok(record), Ok(s)) => record == s,
            (Err(e), Err(s)) => e@ == s,
            _ => false,
        },
{
    serde_json::from_str(line).map_err(|e| e.to_string())
}

/// `serde_json::Map::get`, then `serde_json::Value::as_str`: the string under a
/// key, `None` where there is no value or another one.
#[verifier::external_body]
fn text_under(record: &serde_json::Map<String, serde_json::Value>, key: &str) -> (r: Option<String>)
    ensures
        match r {
            Some(text) => record_texts(*record).get(key@) == Some(text@),
            None => record_texts(*record).get(key@) is None,
        },
{
    record.get(key).and_then(serde_json::Value::as_str).map(str::to_owned)
}

/// `serde_json::Map::contains_key`.
#[verifier::external_body]
fn has_key(record: &serde_json::Map<String, serde_json::Value>, key: &str) -> (r: bool)
    ensures
        r == record_keys(*record).contains(key@),
{
    record.contains_key(key)
}

/// `serde_json::Map::insert` of a string: it stands under the key, whatever
/// stood there before, and every other key keeps its value.
#[verifier::external_body]
fn put_text(record: &mut serde_json::Map<String, serde_json::Value>, key: &str, text: &str)
    ensures
        record_texts(*final(record)) == record_texts(*old(record)).insert(key@, text@),
        record_keys(*final(record)) == record_keys(*old(record)).insert(key@),
        record_values(*final(record)).remove(key@) == record_values(*old(record)).remove(key@),
{
    record.insert(key.to_owned(), serde_json::Value::from(text));
}

/// `serde_json::Map::new`: a record without keys.
#[verifier::external_body]
fn no_record() -> (r: serde_json::Map<String, serde_json::Value>)
    ensures
        record_texts(r).dom().is_empty(),
        record_keys(r).is_empty(),
{
    serde_json::Map::new()
}

/// The clone of a `serde_json::Map`: the same keys with the same values.
#[verifier::external_body]
fn copy_record(record: &serde_json::Map<String, serde_json::Value>) -> (r: serde_json::Map<
    String,
    serde_json::Value,
>)
    ensures
        r == *record,
{
    record.clone()
}

/// `serde_json::to_string` of a map.
#[verifier::external_body]
fn write_record(record: &serde_json::Map<String, serde_json::Value>) -> (r: Result<String, String>)
    ensures
        match (r, record_line(*record)) {
            (Ok(line), Ok(s)) => line@ == s,
            (Err(e), Err(s)) => e@ == s,
            _ => false,
        },
{
    serde_json::to_string(record).map_err(|e| e.to_string())
}

/// A prompt to continue, and whatever else the file said about it.
pub struct Ask {
    pub prompt: String,
    pub record: serde_json::Map<String, serde_json::Value>,
}

/// Why there is nothing to ask.
#[derive(Debug)]
pub enum Error {
    /// A line of the file is no JSON object.
    NotAnObject { path: String, line: usize, why: String },
    /// A record has no `prompt` string.
    NoPrompt { path: String, line: usize },
    /// The file has no prompt in it.
    Empty { path: String },
}

impl Error {
    /// The error in words.
    pub open spec fn words(self) -> Seq<char> {
        match self {
            Error::NotAnObject { path, line, why: _ } => path@ + ":"@ + text::decimal(line as nat)
                + " is not a json object"@,
            Error::NoPrompt { path, line } => path@ + ":"@ + text::decimal(line as nat)
                + " has no `prompt` string"@,
            Error::Empty { path } => "no prompts in "@ + path@,
        }
    }

    /// The error in words.
    pub fn message(&self) -> (r: String)
        ensures
            r@ == self.words(),
    {
        let mut out = String::new();
        match self {
            Error::NotAnObject { path, line, why: _ } => {
                out.append(path.as_str());
                out.append(":");
                text::push_decimal(&mut out, *line as u64);
                out.append(" is not a json object");
            },
            Error::NoPrompt { path, line } => {
                out.append(path.as_str());
                out.append(":");
                text::push_decimal(&mut out, *line as u64);
                out.append(" has no `prompt` string");
            },
            Error::Empty { path } => {
                out.append("no prompts in ");
                out.append(path.as_str());
            },
        }
        assert(out@ =~= self.words());
        out
    }
}

/// Where the line ends that starts at `from`: at the next newline, or at the
/// end.
pub open spec fn line_end(s: Seq<char>, from: int) -> int
    decreases s.len() - from,
{
    if from >= s.len() || s[from] == '\n' {
        from
    } else {
        line_end(s, from + 1)
    }
}

proof fn line_end_bounds(s: Seq<char>, from: int)
    requires
        0 <= from <= s.len(),
    ensures
        from <= line_end(s, from) <= s.len(),
    decreases s.len() - from,
{
    if from < s.len() && s[from] != '\n' {
        line_end_bounds(s, from + 1);
    }
}

/// The lines from `from` on that are not blank, each without the white space
/// around it, and numbered from `number` on.
pub open spec fn lines_from(s: Seq<char>, from: int, number: nat) -> Seq<(nat, Seq<char>)>
    decreases s.len() - from,
    via lines_shrink
{
    if from < 0 || from > s.len() {
        Seq::empty()
    } else {
        let end = line_end(s, from);
        let line = text::trimmed(s.subrange(from, end));
        let rest = if end < s.len() {
            lines_from(s, end + 1, number + 1)
        } else {
            Seq::empty()
        };
        if line.len() == 0 {
            rest
        } else {
            seq![(number, line)] + rest
        }
    }
}

#[via_fn]
proof fn lines_shrink(s: Seq<char>, from: int, number: nat) {
    if 0 <= from <= s.len() {
        line_end_bounds(s, from);
    }
}

/// The lines of a file that are not blank, each without the white space around
/// it, with their numbers.
pub open spec fn lines(s: Seq<char>) -> Seq<(nat, Seq<char>)> {
    lines_from(s, 0, 1)
}

/// A line is a record, not a plain prompt.
pub open spec fn is_record(line: Seq<char>) -> bool {
    line.len() > 0 && line[0] == '{'
}

/// What a record asks for, told from what it was read as.
pub open spec fn asked_for(
    read: Result<serde_json::Map<String, serde_json::Value>, Seq<char>>,
) -> Option<Seq<char>> {
    match read {
        Ok(record) => record_texts(record).get("prompt"@),
        Err(_) => None,
    }
}

/// `ask` is what a line asks for.
pub open spec fn is_ask(line: Seq<char>, ask: Ask) -> bool {
    if is_record(line) {
        line_record(line) == Ok::<serde_json::Map<String, serde_json::Value>, Seq<char>>(ask.record)
            && record_texts(ask.record).get("prompt"@) == Some(ask.prompt@)
    } else {
        &&& ask.prompt@ == line
        &&& record_texts(ask.record).dom().is_empty()
        &&& record_keys(ask.record).is_empty()
    }
}

/// A line asks for nothing that can be had.
pub open spec fn is_bad(line: Seq<char>) -> bool {
    is_record(line) && asked_for(line_record(line)) is None
}

/// `error` is what is wrong with a line.
pub open spec fn is_fault(path: Seq<char>, line: (nat, Seq<char>), error: Error) -> bool {
    match error {
        Error::NotAnObject { path: p, line: n, why } => p@ == path && n == line.0 && line_record(
            line.1,
        ) == Err::<serde_json::Map<String, serde_json::Value>, Seq<char>>(why@),
        Error::NoPrompt { path: p, line: n } => p@ == path && n == line.0 && line_record(
            line.1,
        ) is Ok,
        Error::Empty { path: _ } => false,
    }
}

fn read_ask(path: &str, line: &Vec<char>, number: usize) -> (r: Result<Ask, Error>)
    requires
        line.len() > 0,
    ensures
        match r {
            Ok(ask) => !is_bad(line@) && is_ask(line@, ask),
            Err(e) => is_bad(line@) && is_fault(path@, (number as nat, line@), e),
        },
{
    let text = text::string_of(line);
    if line[0] != '{' {
        return Ok(Ask { prompt: text, record: no_record() });
    }
    match parse_record(text.as_str()) {
        Ok(record) => match text_under(&record, "prompt") {
            Some(prompt) => Ok(Ask { prompt, record }),
            None => Err(Error::NoPrompt { path: path.to_owned(), line: number }),
        },
        Err(why) => Err(Error::NotAnObject { path: path.to_owned(), line: number, why }),
    }
}

/// The prompts of the file at `path`, which holds `text`: from JSON records, or
/// from plain lines. The first line that asks for nothing that can be had is an
/// error, and so is a file without a prompt.
pub fn asks(path: &str, text: &str) -> (r: Result<Vec<Ask>, Error>)
    ensures
        match r {
            Ok(asked) => {
                &&& asked@.len() == lines(text@).len()
                &&& asked@.len() > 0
                &&& forall|i: int|
                    0 <= i < asked@.len() ==> is_ask(
                        lines(text@)[i].1,
                        #[trigger] asked@[i],
                    )
            },
            Err(Error::Empty { path: p }) => lines(text@).len() == 0 && p@ == path@,
            Err(e) => exists|i: int|
                {
                    &&& 0 <= i < lines(text@).len()
                    &&& is_fault(path@, #[trigger] lines(text@)[i], e)
                    &&& is_bad(lines(text@)[i].1)
                    &&& forall|k: int| 0 <= k < i ==> !is_bad((#[trigger] lines(text@)[k]).1)
                },
        },
{
    let chars = text::chars_of(text);
    let ghost all = lines(text@);
    let mut asked: Vec<Ask> = Vec::new();
    let n = chars.len();
    let mut from: usize = 0;
    let mut index: usize = 0;
    let mut more = true;
    while more
        invariant
            chars@ == text@,
            n == chars.len(),
            all == lines(text@),
            from <= n,
            index <= from,
            all.len() == asked@.len() + if more {
                lines_from(text@, from as int, (index + 1) as nat).len()
            } else {
                0
            },
            more ==> forall|k: int|
                0 <= k < lines_from(text@, from as int, (index + 1) as nat).len() ==> all[asked@.len()
                    + k] == #[trigger] lines_from(text@, from as int, (index + 1) as nat)[k],
            forall|k: int|
                0 <= k < asked@.len() ==> is_ask(
                    all[k].1,
                    #[trigger] asked@[k],
                ),
        decreases (if more { n - from + 1 } else { 0 }),
    {
        let ghost here = lines_from(text@, from as int, (index + 1) as nat);
        let mut end: usize = from;
        while end < n && chars[end] != '\n'
            invariant
                chars@ == text@,
                n == chars.len(),
                from <= end <= n,
                line_end(text@, from as int) == line_end(text@, end as int),
            decreases n - end,
        {
            end = end + 1;
        }
        let line = text::trim(&chars, from, end);
        let ghost rest = if end < n {
            lines_from(text@, end + 1, (index + 2) as nat)
        } else {
            Seq::empty()
        };
        proof {
            line_end_bounds(text@, from as int);
            assert(line_end(text@, from as int) == end);
            assert(here == if line@.len() == 0 {
                rest
            } else {
                seq![((index + 1) as nat, line@)] + rest
            });
        }
        if line.len() > 0 {
            proof {
                assert(here[0] == ((index + 1) as nat, line@));
                assert(all[asked@.len() as int] == here[0]);
            }
            assert(from < n) by {
                if from == n {
                    assert(text@.subrange(n as int, n as int).len() == 0);
                }
            }
            match read_ask(path, &line, index + 1) {
                Ok(ask) => {
                    let ghost new = ask;
                    let ghost old_asked = asked@;
                    asked.push(ask);
                    assert(asked@ =~= old_asked.push(new));
                    assert(is_ask(all[old_asked.len() as int].1, asked@[old_asked.len() as int]));
                },
                Err(e) => {
                    assert forall|k: int| 0 <= k < asked@.len() implies !is_bad(
                        (#[trigger] all[k]).1,
                    ) by {
                        assert(is_ask(all[k].1, asked@[k]));
                    }
                    assert(is_fault(path@, all[asked@.len() as int], e));
                    return Err(e);
                },
            }
            proof {
                assert forall|k: int| 0 <= k < rest.len() implies all[asked@.len() + k]
                    == #[trigger] rest[k] by {
                    assert(here[k + 1] == rest[k]);
                }
            }
        }
        if end < n {
            from = end + 1;
            index = index + 1;
        } else {
            more = false;
        }
    }
    if asked.len() == 0 {
        return Err(Error::Empty { path: path.to_owned() });
    }
    Ok(asked)
}

impl Ask {
    /// A prompt about which nothing else is said.
    pub fn plain(prompt: String) -> (r: Self)
        ensures
            r.prompt == prompt,
            record_texts(r.record).dom().is_empty(),
            record_keys(r.record).is_empty(),
    {
        Ask { prompt, record: no_record() }
    }

    /// Whether the file said anything of `key`.
    pub fn says(&self, key: &str) -> (r: bool)
        ensures
            r == record_keys(self.record).contains(key@),
    {
        has_key(&self.record, key)
    }

    /// What the file said of `key`, where that is a string.
    pub fn said(&self, key: &str) -> (r: Option<String>)
        ensures
            match r {
                Some(text) => record_texts(self.record).get(key@) == Some(text@),
                None => record_texts(self.record).get(key@) is None,
            },
    {
        text_under(&self.record, key)
    }

    /// `record` is what is written down for this prompt and the `text` that
    /// came of it.
    pub open spec fn is_answer(
        self,
        text: Seq<char>,
        record: serde_json::Map<String, serde_json::Value>,
    ) -> bool {
        &&& record_texts(record) == record_texts(self.record).insert("prompt"@, self.prompt@).insert(
            "text"@,
            text,
        )
        &&& record_keys(record) == record_keys(self.record).insert("prompt"@).insert("text"@)
        &&& record_values(record).remove("prompt"@).remove("text"@) == record_values(
            self.record,
        ).remove("prompt"@).remove("text"@)
    }

    /// The line that is written down for this prompt and the `text` that came
    /// of it: the record it came with, the prompt, and the text, which holds the
    /// prompt as well as the continuation.
    pub fn answer(&self, text: &str) -> (r: Result<String, String>)
        ensures
            exists|record: serde_json::Map<String, serde_json::Value>| #[trigger]
                self.is_answer(text@, record) && match (r, record_line(record)) {
                    (Ok(line), Ok(s)) => line@ == s,
                    (Err(e), Err(s)) => e@ == s,
                    _ => false,
                },
    {
        let mut record = copy_record(&self.record);
        put_text(&mut record, "prompt", self.prompt.as_str());
        let ghost prompted = record;
        put_text(&mut record, "text", text);
        proof {
            let (was, mid, now) = (
                record_values(self.record),
                record_values(prompted),
                record_values(record),
            );
            assert(now.remove("prompt"@).remove("text"@) =~= now.remove("text"@).remove(
                "prompt"@,
            ));
            assert(mid.remove("text"@).remove("prompt"@) =~= mid.remove("prompt"@).remove(
                "text"@,
            ));
        }
        assert(self.is_answer(text@, record));
        write_record(&record)
    }
}

/// What is written down for a prompt keeps everything that the file said of it:
/// every other key has the value that it had, of whatever kind.
pub proof fn answers_keep_the_record(
    ask: Ask,
    text: Seq<char>,
    record: serde_json::Map<String, serde_json::Value>,
    key: Seq<char>,
)
    requires
        ask.is_answer(text, record),
    ensures
        record_keys(ask.record).contains(key) ==> record_keys(record).contains(key),
        record_texts(record).get("text"@) == Some(text),
        record_texts(record).get("prompt"@) == Some(ask.prompt@),
        key != "text"@ && key != "prompt"@ ==> {
            &&& record_texts(record).get(key) == record_texts(ask.record).get(key)
            &&& record_values(record).get(key) == record_values(ask.record).get(key)
        },
{
    if key != "text"@ && key != "prompt"@ {
        let (was, now) = (
            record_values(ask.record).remove("prompt"@).remove("text"@),
            record_values(record).remove("prompt"@).remove("text"@),
        );
        assert(was == now);
        assert(was.get(key) == record_values(ask.record).get(key));
        assert(now.get(key) == record_values(record).get(key));
    }
    reveal_strlit("text");
    reveal_strlit("prompt");
    assert("text"@.len() != "prompt"@.len());
}

proof fn line_ends_alike(s: Seq<char>, from: int, t: Seq<char>, at: int)
    requires
        0 <= from <= s.len(),
        0 <= at <= t.len(),
        s.skip(from) == t.skip(at),
    ensures
        line_end(s, from) - from == line_end(t, at) - at,
        s.len() - from == t.len() - at,
    decreases s.len() - from,
{
    assert(s.skip(from).len() == s.len() - from);
    assert(t.skip(at).len() == t.len() - at);
    if from < s.len() {
        assert(s.skip(from)[0] == s[from]);
        assert(t.skip(at)[0] == t[at]);
        if s[from] != '\n' {
            assert(s.skip(from + 1) =~= s.skip(from).skip(1));
            assert(t.skip(at + 1) =~= t.skip(at).skip(1));
            line_ends_alike(s, from + 1, t, at + 1);
        }
    }
}

proof fn lines_go_on_alike(s: Seq<char>, from: int, n: nat, t: Seq<char>, at: int, k: nat)
    requires
        0 <= from <= s.len(),
        0 <= at <= t.len(),
        s.skip(from) == t.skip(at),
    ensures
        lines_from(s, from, n).len() == lines_from(t, at, k).len(),
        forall|i: int|
            0 <= i < lines_from(t, at, k).len() ==> (#[trigger] lines_from(s, from, n)[i]).1
                == lines_from(t, at, k)[i].1 && lines_from(s, from, n)[i].0 - n == lines_from(
                t,
                at,
                k,
            )[i].0 - k,
    decreases s.len() - from,
{
    line_ends_alike(s, from, t, at);
    line_end_bounds(s, from);
    line_end_bounds(t, at);
    let (e, f) = (line_end(s, from), line_end(t, at));
    assert(s.subrange(from, e) =~= s.skip(from).subrange(0, e - from));
    assert(t.subrange(at, f) =~= t.skip(at).subrange(0, f - at));
    if e < s.len() {
        assert(s.skip(e + 1) =~= s.skip(from).skip(e + 1 - from));
        assert(t.skip(f + 1) =~= t.skip(at).skip(f + 1 - at));
        lines_go_on_alike(s, e + 1, n + 1, t, f + 1, k + 1);
    }
    let (a, b) = (lines_from(s, from, n), lines_from(t, at, k));
    let line = text::trimmed(s.subrange(from, e));
    if e < s.len() && line.len() > 0 {
        let (x, y) = (lines_from(s, e + 1, n + 1), lines_from(t, f + 1, k + 1));
        assert forall|i: int| 0 <= i < b.len() implies (#[trigger] a[i]).1 == b[i].1 && a[i].0 - n
            == b[i].0 - k by {
            if i > 0 {
                assert(a[i] == x[i - 1] && b[i] == y[i - 1]);
            }
        }
    }
}

proof fn line_end_is(s: Seq<char>, from: int, end: int)
    requires
        0 <= from <= end <= s.len(),
        forall|i: int| from <= i < end ==> s[i] != '\n',
        end == s.len() || s[end] == '\n',
    ensures
        line_end(s, from) == end,
    decreases end - from,
{
    if from < end {
        line_end_is(s, from + 1, end);
    }
}

/// The lines of a file are what stands between its newlines, without the white
/// space around them and counted from one. A blank one is counted but not kept:
/// behind a first line come those of the rest, each one higher.
pub proof fn files_are_read_line_by_line(a: Seq<char>, b: Seq<char>)
    requires
        forall|i: int| 0 <= i < a.len() ==> #[trigger] a[i] != '\n',
    ensures
        text::trimmed(a).len() == 0 ==> lines(a) == Seq::<(nat, Seq<char>)>::empty(),
        text::trimmed(a).len() > 0 ==> lines(a) == seq![(1nat, text::trimmed(a))],
        lines(a.push('\n') + b) == lines(a) + Seq::new(
            lines(b).len(),
            |i: int| ((lines(b)[i].0 + 1) as nat, lines(b)[i].1),
        ),
{
    line_end_is(a, 0, a.len() as int);
    assert(a.subrange(0, a.len() as int) =~= a);
    if text::trimmed(a).len() > 0 {
        assert(lines(a) =~= seq![(1nat, text::trimmed(a))]);
    }
    let all = a.push('\n') + b;
    let n = a.len() as int;
    assert forall|i: int| 0 <= i < n implies all[i] != '\n' by {
        assert(all[i] == a[i]);
    }
    line_end_is(all, 0, n);
    assert(all.subrange(0, n) =~= a);
    assert(all.skip(n + 1) =~= b.skip(0));
    lines_go_on_alike(all, n + 1, 2, b, 0, 1);
    let rest = lines_from(all, n + 1, 2);
    let shifted = Seq::new(lines(b).len(), |i: int| ((lines(b)[i].0 + 1) as nat, lines(b)[i].1));
    assert forall|i: int| 0 <= i < rest.len() implies rest[i] == shifted[i] by {
        assert(rest[i].1 == lines(b)[i].1);
    }
    assert(rest =~= shifted);
    assert(lines(all) =~= lines(a) + shifted);
}

/// A line that does not start with a brace is the prompt, about which nothing else
/// is said; one that does is a record, and its `prompt` is. There is one prompt for
/// each line that is not blank, and a file without one is refused, as it is where a
/// record has none, for the first such line.
pub proof fn prompts_are_their_lines(
    path: &str,
    content: &str,
    r: Result<Vec<Ask>, Error>,
    i: int,
)
    requires
        call_ensures(asks, (path, content), r),
        0 <= i < lines(content@).len(),
    ensures
        r matches Ok(asked) ==> {
            let line = lines(content@)[i].1;
            &&& asked@.len() == lines(content@).len()
            &&& line.len() == 0 || line[0] != '{' ==> {
                &&& asked@[i].prompt@ == line
                &&& record_keys(asked@[i].record).is_empty()
            }
            &&& line.len() > 0 && line[0] == '{' ==> {
                &&& line_record(line) == Ok::<
                    serde_json::Map<String, serde_json::Value>,
                    Seq<char>,
                >(asked@[i].record)
                &&& record_texts(asked@[i].record).get("prompt"@) == Some(asked@[i].prompt@)
            }
        },
        r matches Err(e) ==> !(e is Empty),
{
    if let Ok(asked) = r {
        assert(is_ask(lines(content@)[i].1, asked@[i]));
    }
}

/// What is written down for a prompt is its record, with the prompt and the whole
/// text in it, and every other key as it was.
pub proof fn answers_are_records(ask: Ask, text: &str, line: String, key: Seq<char>) -> (record:
    serde_json::Map<String, serde_json::Value>)
    requires
        call_ensures(Ask::answer, (&ask, text), Ok(line)),
    ensures
        record_line(record) == Ok::<Seq<char>, Seq<char>>(line@),
        record_texts(record).get("text"@) == Some(text@),
        record_texts(record).get("prompt"@) == Some(ask.prompt@),
        record_keys(record).contains(key) <==> record_keys(ask.record).contains(key) || key
            == "text"@ || key == "prompt"@,
        key != "text"@ && key != "prompt"@ ==> {
            &&& record_texts(record).get(key) == record_texts(ask.record).get(key)
            &&& record_values(record).get(key) == record_values(ask.record).get(key)
        },
{
    let r: Result<String, String> = Ok(line);
    let record = choose|record: serde_json::Map<String, serde_json::Value>| #[trigger]
        ask.is_answer(text@, record) && match (r, record_line(record)) {
            (Ok(line), Ok(s)) => line@ == s,
            (Err(e), Err(s)) => e@ == s,
            _ => false,
        };
    answers_keep_the_record(ask, text@, record, key);
    record
}

/// What is wrong with a file of prompts is told by where it stands: the file, and
/// the line where there is one.
pub proof fn faults_are_told_by_their_lines(e: Error, r: String)
    requires
        call_ensures(Error::message, (&e,), r),
    ensures
        match e {
            Error::NotAnObject { path, line, why: _ } => r@ == path@ + ":"@ + text::decimal(
                line as nat,
            ) + " is not a json object"@,
            Error::NoPrompt { path, line } => r@ == path@ + ":"@ + text::decimal(line as nat)
                + " has no `prompt` string"@,
            Error::Empty { path } => r@ == "no prompts in "@ + path@,
        },
{
}

/// The first line that asks for nothing is the one that is reported, by its number
/// in the file.
pub proof fn the_first_bad_line_is_reported(
    path: &str,
    content: &str,
    r: Result<Vec<Ask>, Error>,
    i: int,
)
    requires
        call_ensures(asks, (path, content), r),
        0 <= i < lines(content@).len(),
        lines(content@)[i].1.len() > 0,
        lines(content@)[i].1[0] == '{',
        line_record(lines(content@)[i].1) is Err || record_texts(
            line_record(lines(content@)[i].1)->Ok_0,
        ).get("prompt"@) is None,
        forall|k: int|
            0 <= k < i ==> (#[trigger] lines(content@)[k]).1.len() == 0 || lines(content@)[k].1[0]
                != '{' || (line_record(lines(content@)[k].1) is Ok && record_texts(
                line_record(lines(content@)[k].1)->Ok_0,
            ).get("prompt"@) is Some),
    ensures
        line_record(lines(content@)[i].1) is Err ==> {
            &&& r matches Err(Error::NotAnObject { path: p, line, why })
            &&& p@ == path@
            &&& line == lines(content@)[i].0
        },
        line_record(lines(content@)[i].1) is Ok ==> {
            &&& r matches Err(Error::NoPrompt { path: p, line })
            &&& p@ == path@
            &&& line == lines(content@)[i].0
        },
{
    let all = lines(content@);
    assert(is_bad(all[i].1));
    match r {
        Ok(asked) => {
            assert(is_ask(all[i].1, asked@[i]));
        },
        Err(Error::Empty { path: _ }) => {},
        Err(e) => {
            let at = choose|at: int|
                {
                    &&& 0 <= at < all.len()
                    &&& is_fault(path@, #[trigger] all[at], e)
                    &&& is_bad(all[at].1)
                    &&& forall|k: int| 0 <= k < at ==> !is_bad((#[trigger] all[k]).1)
                };
            if at < i {
                assert(!is_bad(all[at].1));
            }
            if i < at {
                assert(!is_bad(all[i].1));
            }
            assert(at == i);
        },
    }
}

} // verus!
