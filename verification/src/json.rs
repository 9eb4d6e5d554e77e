//! The part of JSON that the configuration files use: an array of objects whose
//! fields are all strings, with a fixed set of field names.
//!
//! A string stands for its characters; a backslash introduces one of six escapes.

use vstd::prelude::*;

use crate::text::{chars_of, opt_text, same_text};
use crate::types::{Error, ErrorView};

verus! {

// --- What a text means ---

/// The objects that a file may hold: their field names, and what is said of an
/// object without fields and before a name that is not among them.
pub struct Schema {
    pub keys: Seq<Seq<char>>,
    pub empty: Seq<char>,
    pub unknown: Seq<char>,
}

/// White space between tokens.
pub open spec fn is_blank(c: char) -> bool {
    c == ' ' || c == '\t' || c == '\n' || c == '\r'
}

/// The first position at or after `p` that holds no white space.
pub open spec fn skip_blank(b: Seq<char>, p: int) -> int
    decreases b.len() - p,
{
    if 0 <= p < b.len() && is_blank(b[p]) {
        skip_blank(b, p + 1)
    } else {
        p
    }
}

/// Reads one given character.
pub open spec fn token(b: Seq<char>, p: int, ch: char) -> Result<int, Seq<char>> {
    if p >= b.len() {
        Err("expected '"@ + seq![ch] + "', got end of input"@)
    } else if b[p] == ch {
        Ok(p + 1)
    } else {
        Err("expected '"@ + seq![ch] + "', got '"@ + seq![b[p]] + "'"@)
    }
}

/// The character that an escape stands for.
pub open spec fn escape(c: char) -> Option<char> {
    if c == '"' {
        Some('"')
    } else if c == '\\' {
        Some('\\')
    } else if c == '/' {
        Some('/')
    } else if c == 'n' {
        Some('\n')
    } else if c == 't' {
        Some('\t')
    } else if c == 'r' {
        Some('\r')
    } else {
        None
    }
}

/// Puts a text before one that was read.
pub open spec fn preceded(t: Seq<char>, r: Result<(Seq<char>, int), Seq<char>>) -> Result<
    (Seq<char>, int),
    Seq<char>,
> {
    match r {
        Ok((u, q)) => Ok((t + u, q)),
        Err(e) => Err(e),
    }
}

/// Reads a string from behind its opening quote.
pub open spec fn string_rest(b: Seq<char>, p: int) -> Result<(Seq<char>, int), Seq<char>>
    decreases b.len() - p,
{
    if p < 0 || p >= b.len() {
        Err("unterminated string"@)
    } else if b[p] == '"' {
        Ok((Seq::empty(), p + 1))
    } else if b[p] == '\\' {
        if p + 1 >= b.len() {
            Err("unterminated escape"@)
        } else {
            match escape(b[p + 1]) {
                Some(c) => preceded(seq![c], string_rest(b, p + 2)),
                None => Err("invalid escape: \\"@ + seq![b[p + 1]]),
            }
        }
    } else {
        preceded(seq![b[p]], string_rest(b, p + 1))
    }
}

/// Reads a string.
pub open spec fn string_at(b: Seq<char>, p: int) -> Result<(Seq<char>, int), Seq<char>> {
    match token(b, p, '"') {
        Ok(q) => string_rest(b, q),
        Err(e) => Err(e),
    }
}

/// Reads a field: a name, a colon, and a value.
pub open spec fn field_at(b: Seq<char>, p: int) -> Result<(Seq<char>, Seq<char>, int), Seq<char>> {
    match string_at(b, skip_blank(b, p)) {
        Ok((key, q)) => match token(b, skip_blank(b, q), ':') {
            Ok(r) => match string_at(b, skip_blank(b, r)) {
                Ok((value, s)) => Ok((key, value, s)),
                Err(e) => Err(e),
            },
            Err(e) => Err(e),
        },
        Err(e) => Err(e),
    }
}

/// The place of a name among the field names.
pub open spec fn key_index(keys: Seq<Seq<char>>, key: Seq<char>, from: int) -> Option<int>
    decreases keys.len() - from,
{
    if from < 0 || from >= keys.len() {
        None
    } else if keys[from] == key {
        Some(from)
    } else {
        key_index(keys, key, from + 1)
    }
}

/// Reads the fields of an object up to its closing brace. A name that occurs
/// again replaces what was read before.
pub open spec fn fields_at(
    b: Seq<char>,
    p: int,
    schema: Schema,
    have: Seq<Option<Seq<char>>>,
) -> Result<(Seq<Option<Seq<char>>>, int), Seq<char>>
    decreases b.len() - p,
    via fields_at_decreases
{
    match field_at(b, p) {
        Ok((key, value, q)) => match key_index(schema.keys, key, 0) {
            Some(k) => {
                let now = have.update(k, Some(value));
                let r = skip_blank(b, q);
                if p < 0 || r >= b.len() {
                    Err("unexpected end of input in object"@)
                } else if b[r] == ',' {
                    fields_at(b, r + 1, schema, now)
                } else if b[r] == '}' {
                    Ok((now, r + 1))
                } else {
                    Err("expected ',' or '}', got '"@ + seq![b[r]] + "'"@)
                }
            },
            None => Err(schema.unknown + key),
        },
        Err(e) => Err(e),
    }
}

#[via_fn]
proof fn fields_at_decreases(
    b: Seq<char>,
    p: int,
    schema: Schema,
    have: Seq<Option<Seq<char>>>,
) {
    if 0 <= p {
        lemma_field_moves_on(b, p);
        if let Ok((key, value, q)) = field_at(b, p) {
            lemma_skip_blank(b, q);
        }
    }
}

/// The values of the fields, in the order of the field names, if none is
/// missing.
pub open spec fn complete(
    keys: Seq<Seq<char>>,
    have: Seq<Option<Seq<char>>>,
    from: int,
) -> Result<Seq<Seq<char>>, Seq<char>>
    decreases keys.len() - from,
{
    if from < 0 || from >= keys.len() {
        Ok(have.map_values(|o: Option<Seq<char>>| o->0))
    } else if have[from] is None {
        Err("missing field: "@ + keys[from])
    } else {
        complete(keys, have, from + 1)
    }
}

/// The fields of an object before any has been read.
pub open spec fn no_fields(n: nat) -> Seq<Option<Seq<char>>> {
    Seq::new(n, |i: int| None)
}

/// Reads an object.
pub open spec fn record_at(b: Seq<char>, p: int, schema: Schema) -> Result<
    (Seq<Seq<char>>, int),
    Seq<char>,
> {
    match token(b, skip_blank(b, p), '{') {
        Ok(q) => {
            let r = skip_blank(b, q);
            if r < b.len() && b[r] == '}' {
                Err(schema.empty)
            } else {
                match fields_at(b, r, schema, no_fields(schema.keys.len())) {
                    Ok((have, s)) => match complete(schema.keys, have, 0) {
                        Ok(values) => Ok((values, s)),
                        Err(e) => Err(e),
                    },
                    Err(e) => Err(e),
                }
            }
        },
        Err(e) => Err(e),
    }
}

/// Reads the objects of an array up to its closing bracket.
pub open spec fn records_at(
    b: Seq<char>,
    p: int,
    schema: Schema,
    done: Seq<Seq<Seq<char>>>,
) -> Result<Seq<Seq<Seq<char>>>, Seq<char>>
    decreases b.len() - p,
    via records_at_decreases
{
    match record_at(b, p, schema) {
        Ok((values, q)) => {
            let now = done.push(values);
            let r = skip_blank(b, q);
            if p < 0 || r >= b.len() {
                Err("unexpected end of input"@)
            } else if b[r] == ',' {
                records_at(b, r + 1, schema, now)
            } else if b[r] == ']' {
                Ok(now)
            } else {
                Err("expected ',' or ']', got '"@ + seq![b[r]] + "'"@)
            }
        },
        Err(e) => Err(e),
    }
}

#[via_fn]
proof fn records_at_decreases(
    b: Seq<char>,
    p: int,
    schema: Schema,
    done: Seq<Seq<Seq<char>>>,
) {
    if 0 <= p {
        lemma_record_moves_on(b, p, schema);
        if let Ok((values, q)) = record_at(b, p, schema) {
            lemma_skip_blank(b, q);
        }
    }
}

/// The objects of a file: each is the sequence of its values, in the order of
/// the field names. What follows the array is not looked at.
pub open spec fn records(b: Seq<char>, schema: Schema) -> Result<Seq<Seq<Seq<char>>>, Seq<char>> {
    match token(b, skip_blank(b, 0), '[') {
        Ok(p) => {
            let q = skip_blank(b, p);
            if q < b.len() && b[q] == ']' {
                Ok(Seq::empty())
            } else {
                records_at(b, q, schema, Seq::empty())
            }
        },
        Err(e) => Err(e),
    }
}

// --- Reading moves on ---

proof fn lemma_skip_blank(b: Seq<char>, p: int)
    requires
        0 <= p,
    ensures
        p <= skip_blank(b, p),
        p <= b.len() ==> skip_blank(b, p) <= b.len(),
    decreases b.len() - p,
{
    if p < b.len() && is_blank(b[p]) {
        lemma_skip_blank(b, p + 1);
    }
}

proof fn lemma_string_rest_moves_on(b: Seq<char>, p: int)
    requires
        0 <= p,
    ensures
        string_rest(b, p) matches Ok((t, q)) ==> p < q <= b.len(),
    decreases b.len() - p,
{
    if p < b.len() && b[p] != 34 {
        if b[p] == '\\' {
            if p + 1 < b.len() {
                lemma_string_rest_moves_on(b, p + 2);
            }
        } else {
            lemma_string_rest_moves_on(b, p + 1);
        }
    }
}

proof fn lemma_field_moves_on(b: Seq<char>, p: int)
    requires
        0 <= p,
    ensures
        field_at(b, p) matches Ok((k, v, q)) ==> p < q <= b.len(),
{
    lemma_skip_blank(b, p);
    let p1 = skip_blank(b, p);
    lemma_string_rest_moves_on(b, p1 + 1);
    if let Ok((key, q)) = string_at(b, p1) {
        lemma_skip_blank(b, q);
        let q1 = skip_blank(b, q);
        lemma_skip_blank(b, q1 + 1);
        lemma_string_rest_moves_on(b, skip_blank(b, q1 + 1) + 1);
    }
}

proof fn lemma_fields_move_on(
    b: Seq<char>,
    p: int,
    schema: Schema,
    have: Seq<Option<Seq<char>>>,
)
    requires
        0 <= p,
    ensures
        fields_at(b, p, schema, have) matches Ok((f, q)) ==> p < q <= b.len(),
    decreases b.len() - p,
{
    lemma_field_moves_on(b, p);
    if let Ok((key, value, q)) = field_at(b, p) {
        lemma_skip_blank(b, q);
        if let Some(k) = key_index(schema.keys, key, 0) {
            let r = skip_blank(b, q);
            if r < b.len() {
                lemma_fields_move_on(b, r + 1, schema, have.update(k, Some(value)));
            }
        }
    }
}

proof fn lemma_record_moves_on(b: Seq<char>, p: int, schema: Schema)
    requires
        0 <= p,
    ensures
        record_at(b, p, schema) matches Ok((v, q)) ==> p < q <= b.len(),
{
    lemma_skip_blank(b, p);
    let p1 = skip_blank(b, p);
    lemma_skip_blank(b, p1 + 1);
    lemma_fields_move_on(b, skip_blank(b, p1 + 1), schema, no_fields(schema.keys.len()));
}

// --- The reader ---

/// Whether an error is the given complaint.
pub open spec fn complains(e: Error, m: Seq<char>) -> bool {
    e@ == ErrorView::Parse(m)
}

/// The objects that a file may hold.
pub struct Shape {
    pub keys: Vec<&'static str>,
    pub empty: &'static str,
    pub unknown: &'static str,
}

impl View for Shape {
    type V = Schema;

    open spec fn view(&self) -> Schema {
        Schema {
            keys: self.keys@.map_values(|k: &'static str| k@),
            empty: self.empty@,
            unknown: self.unknown@,
        }
    }
}

/// A position in a text.
pub struct JsonParser {
    text: Vec<char>,
    pos: usize,
}

spec fn fields_view(have: Seq<Option<String>>) -> Seq<Option<Seq<char>>> {
    have.map_values(|o: Option<String>| opt_text(o))
}

/// The views of a sequence of strings.
pub open spec fn texts(s: Seq<String>) -> Seq<Seq<char>> {
    s.map_values(|t: String| t@)
}

/// The views of a sequence of sequences of strings.
pub open spec fn text_rows(s: Seq<Vec<String>>) -> Seq<Seq<Seq<char>>> {
    s.map_values(|t: Vec<String>| texts(t@))
}

fn complaint(start: &str, c: char, end: &str) -> (r: Error)
    ensures
        complains(r, start@ + seq![c] + end@),
{
    let mut m = String::new();
    m.append(start);
    m.push(c);
    m.append(end);
    assert(m@ =~= start@ + seq![c] + end@);
    Error::Parse(m)
}

fn plain_complaint(text: &str) -> (r: Error)
    ensures
        complains(r, text@),
{
    Error::Parse(text.to_owned())
}

impl JsonParser {
    spec fn wf(&self) -> bool {
        self.pos <= self.text@.len()
    }

    fn new(input: &str) -> (r: JsonParser)
        ensures
            r.wf(),
            r.text@ == input@,
            r.pos == 0,
    {
        JsonParser { text: chars_of(input), pos: 0 }
    }

    fn peek(&self) -> (r: Option<char>)
        ensures
            r == (if self.pos < self.text@.len() {
                Some(self.text@[self.pos as int])
            } else {
                None
            }),
    {
        if self.pos < self.text.len() {
            Some(self.text[self.pos])
        } else {
            None
        }
    }

    fn advance(&mut self)
        requires
            old(self).pos < old(self).text@.len(),
        ensures
            final(self).text == old(self).text,
            final(self).pos == old(self).pos + 1,
            final(self).wf(),
    {
        assert(self.pos < self.text.len());
        self.pos = self.pos + 1;
    }

    fn skip_ws(&mut self)
        requires
            old(self).wf(),
        ensures
            final(self).wf(),
            final(self).text == old(self).text,
            final(self).pos == skip_blank(old(self).text@, old(self).pos as int),
    {
        let ghost b = self.text@;
        while self.pos < self.text.len() && (self.text[self.pos] == ' ' || self.text[self.pos]
            == '\t' || self.text[self.pos] == '\n' || self.text[self.pos] == '\r')
            invariant
                self.wf(),
                self.text == old(self).text,
                b == self.text@,
                skip_blank(b, self.pos as int) == skip_blank(b, old(self).pos as int),
            decreases b.len() - self.pos,
        {
            self.advance();
        }
    }

    fn expect(&mut self, ch: char) -> (r: Result<(), Error>)
        requires
            old(self).wf(),
        ensures
            final(self).wf(),
            final(self).text == old(self).text,
            match r {
                Ok(_) => token(old(self).text@, old(self).pos as int, ch) == Ok::<int, Seq<char>>(
                    final(self).pos as int,
                ),
                Err(e) => token(old(self).text@, old(self).pos as int, ch) matches Err(m)
                    && complains(e, m),
            },
    {
        match self.peek() {
            Some(b) => {
                if b == ch {
                    self.advance();
                    Ok(())
                } else {
                    let mut m = String::new();
                    m.append("expected '");
                    m.push(ch);
                    m.append("', got '");
                    m.push(b);
                    m.append("'");
                    assert(m@ =~= "expected '"@ + seq![ch] + "', got '"@ + seq![b]
                        + "'"@);
                    Err(Error::Parse(m))
                }
            },
            None => Err(complaint("expected '", ch, "', got end of input")),
        }
    }

    fn parse_string(&mut self) -> (r: Result<String, Error>)
        requires
            old(self).wf(),
        ensures
            final(self).wf(),
            final(self).text == old(self).text,
            match r {
                Ok(t) => string_at(old(self).text@, old(self).pos as int) == Ok::<
                    (Seq<char>, int),
                    Seq<char>,
                >((t@, final(self).pos as int)),
                Err(e) => string_at(old(self).text@, old(self).pos as int) matches Err(m)
                    && complains(e, m),
            },
    {
        match self.expect('"') {
            Ok(_) => {},
            Err(e) => {
                return Err(e);
            },
        }
        let ghost b = self.text@;
        let ghost start = self.pos as int;
        let mut s = String::new();
        proof {
            if let Ok((t, q)) = string_rest(b, start) {
                assert(Seq::<char>::empty() + t =~= t);
            }
        }
        loop
            invariant
                self.wf(),
                self.text == old(self).text,
                b == self.text@,
                string_at(b, old(self).pos as int) == string_rest(b, start),
                string_rest(b, start) == preceded(s@, string_rest(b, self.pos as int)),
            decreases b.len() - self.pos,
        {
            let ghost before = s@;
            let ghost p = self.pos as int;
            match self.peek() {
                None => {
                    return Err(plain_complaint("unterminated string"));
                },
                Some(c) => {
                    if c == '"' {
                        self.advance();
                        assert(before + Seq::<char>::empty() =~= before);
                        return Ok(s);
                    } else if c == '\\' {
                        self.advance();
                        match self.peek() {
                            None => {
                                return Err(plain_complaint("unterminated escape"));
                            },
                            Some(d) => {
                                let e: char = if d == '"' {
                                    '"'
                                } else if d == '\\' {
                                    '\\'
                                } else if d == '/' {
                                    '/'
                                } else if d == 'n' {
                                    '\n'
                                } else if d == 't' {
                                    '\t'
                                } else if d == 'r' {
                                    '\r'
                                } else {
                                    let mut m = String::new();
                                    m.append("invalid escape: \\");
                                    m.push(d);
                                    assert(m@ =~= "invalid escape: \\"@ + seq![d]);
                                    return Err(Error::Parse(m));
                                };
                                s.push(e);
                                self.advance();
                                proof {
                                    assert(escape(d) == Some(e));
                                    if let Ok((t, q)) = string_rest(b, p + 2) {
                                        assert(before + (seq![e] + t) =~= before.push(e) + t);
                                    }
                                }
                            },
                        }
                    } else {
                        s.push(c);
                        self.advance();
                        proof {
                            if let Ok((t, q)) = string_rest(b, p + 1) {
                                assert(before + (seq![c] + t) =~= before.push(c)
                                    + t);
                            }
                        }
                    }
                },
            }
        }
    }

    fn parse_field(&mut self) -> (r: Result<(String, String), Error>)
        requires
            old(self).wf(),
        ensures
            final(self).wf(),
            final(self).text == old(self).text,
            match r {
                Ok((k, v)) => field_at(old(self).text@, old(self).pos as int) == Ok::<
                    (Seq<char>, Seq<char>, int),
                    Seq<char>,
                >((k@, v@, final(self).pos as int)),
                Err(e) => field_at(old(self).text@, old(self).pos as int) matches Err(m)
                    && complains(e, m),
            },
    {
        self.skip_ws();
        let key = match self.parse_string() {
            Ok(k) => k,
            Err(e) => {
                return Err(e);
            },
        };
        self.skip_ws();
        match self.expect(':') {
            Ok(_) => {},
            Err(e) => {
                return Err(e);
            },
        }
        self.skip_ws();
        match self.parse_string() {
            Ok(value) => Ok((key, value)),
            Err(e) => Err(e),
        }
    }
}

fn find_key(shape: &Shape, key: &str) -> (r: Option<usize>)
    ensures
        r matches Some(k) ==> key_index(shape@.keys, key@, 0) == Some(k as int) && k
            < shape.keys@.len(),
        r is None ==> key_index(shape@.keys, key@, 0) is None,
{
    let mut i: usize = 0;
    while i < shape.keys.len()
        invariant
            i <= shape.keys@.len(),
            key_index(shape@.keys, key@, 0) == key_index(shape@.keys, key@, i as int),
        decreases shape.keys@.len() - i,
    {
        assert(shape@.keys[i as int] == shape.keys@[i as int]@);
        if same_text(shape.keys[i], key) {
            return Some(i);
        }
        i = i + 1;
    }
    None
}

/// Reads the fields of an object from behind its opening brace.
fn parse_fields(p: &mut JsonParser, shape: &Shape) -> (r: Result<Vec<Option<String>>, Error>)
    requires
        old(p).wf(),
    ensures
        final(p).wf(),
        final(p).text == old(p).text,
        match r {
            Ok(have) => have@.len() == shape.keys@.len() && fields_at(
                old(p).text@,
                old(p).pos as int,
                shape@,
                no_fields(shape@.keys.len()),
            ) == Ok::<(Seq<Option<Seq<char>>>, int), Seq<char>>(
                (fields_view(have@), final(p).pos as int),
            ),
            Err(e) => fields_at(
                old(p).text@,
                old(p).pos as int,
                shape@,
                no_fields(shape@.keys.len()),
            ) matches Err(m) && complains(e, m),
        },
{
    let mut have: Vec<Option<String>> = Vec::new();
    while have.len() < shape.keys.len()
        invariant
            have@.len() <= shape.keys@.len(),
            forall|i: int| 0 <= i < have@.len() ==> have@[i] is None,
        decreases shape.keys@.len() - have@.len(),
    {
        have.push(None);
    }
    assert(fields_view(have@) =~= no_fields(have@.len()));
    let ghost b = p.text@;
    let ghost start = p.pos as int;
    loop
        invariant
            p.wf(),
            p.text == old(p).text,
            b == p.text@,
            start == old(p).pos,
            have@.len() == shape.keys@.len(),
            fields_at(b, p.pos as int, shape@, fields_view(have@)) == fields_at(
                b,
                start,
                shape@,
                no_fields(shape@.keys.len()),
            ),
        decreases b.len() - p.pos,
    {
        let ghost q = p.pos as int;
        let ghost before = fields_view(have@);
        let (key, value) = match p.parse_field() {
            Ok(kv) => kv,
            Err(e) => {
                return Err(e);
            },
        };
        proof {
            lemma_field_moves_on(b, q);
            lemma_skip_blank(b, p.pos as int);
        }
        let k: usize = match find_key(shape, key.as_str()) {
            Some(k) => k,
            None => {
                let mut m = String::new();
                m.append(shape.unknown);
                m.append(key.as_str());
                assert(m@ =~= shape.unknown@ + key@);
                return Err(Error::Parse(m));
            },
        };
        have[k] = Some(value);
        assert(fields_view(have@) =~= before.update(k as int, Some(value@)));
        p.skip_ws();
        match p.peek() {
            Some(c) => {
                if c == ',' {
                    p.advance();
                } else if c == '}' {
                    p.advance();
                    return Ok(have);
                } else {
                    return Err(complaint("expected ',' or '}', got '", c, "'"));
                }
            },
            None => {
                return Err(plain_complaint("unexpected end of input in object"));
            },
        }
    }
}

/// Takes the values of the fields, in order.
fn take_values(shape: &Shape, have: Vec<Option<String>>) -> (r: Result<Vec<String>, Error>)
    requires
        have@.len() == shape.keys@.len(),
    ensures
        match r {
            Ok(v) => v@.len() == shape.keys@.len() && complete(shape@.keys, fields_view(have@), 0)
                == Ok::<Seq<Seq<char>>, Seq<char>>(texts(v@)),
            Err(e) => complete(shape@.keys, fields_view(have@), 0) matches Err(m) && complains(
                e,
                m,
            ),
        },
{
    let mut values: Vec<String> = Vec::new();
    let mut i: usize = 0;
    let ghost f = fields_view(have@);
    while i < have.len()
        invariant
            i <= have@.len(),
            have@.len() == shape.keys@.len(),
            f == fields_view(have@),
            values@.len() == i,
            forall|k: int| 0 <= k < i ==> f[k] == Some(#[trigger] values@[k]@),
            complete(shape@.keys, f, 0) == complete(shape@.keys, f, i as int),
        decreases have@.len() - i,
    {
        assert(f[i as int] == opt_text(have@[i as int]));
        match &have[i] {
            Some(v) => {
                values.push(v.clone());
            },
            None => {
                let mut m = String::new();
                m.append("missing field: ");
                m.append(shape.keys[i]);
                assert(shape@.keys[i as int] == shape.keys@[i as int]@);
                assert(m@ =~= "missing field: "@ + shape.keys@[i as int]@);
                return Err(Error::Parse(m));
            },
        }
        i = i + 1;
    }
    assert(f.map_values(|o: Option<Seq<char>>| o->0) =~= texts(values@));
    Ok(values)
}

/// Reads an object.
fn parse_record(p: &mut JsonParser, shape: &Shape) -> (r: Result<Vec<String>, Error>)
    requires
        old(p).wf(),
    ensures
        final(p).wf(),
        final(p).text == old(p).text,
        match r {
            Ok(v) => v@.len() == shape.keys@.len() && record_at(
                old(p).text@,
                old(p).pos as int,
                shape@,
            ) == Ok::<(Seq<Seq<char>>, int), Seq<char>>((texts(v@), final(p).pos as int)),
            Err(e) => record_at(old(p).text@, old(p).pos as int, shape@) matches Err(m)
                && complains(e, m),
        },
{
    p.skip_ws();
    match p.expect('{') {
        Ok(_) => {},
        Err(e) => {
            return Err(e);
        },
    }
    p.skip_ws();
    if p.pos < p.text.len() && p.text[p.pos] == '}' {
        return Err(plain_complaint(shape.empty));
    }
    match parse_fields(p, shape) {
        Ok(have) => take_values(shape, have),
        Err(e) => Err(e),
    }
}

/// Reads a file: an array of objects, each given by the values of its fields.
pub fn parse_records(json: &str, shape: &Shape) -> (r: Result<Vec<Vec<String>>, Error>)
    ensures
        match r {
            Ok(v) => {
                &&& records(json@, shape@) == Ok::<Seq<Seq<Seq<char>>>, Seq<char>>(
                    text_rows(v@),
                )
                &&& forall|i: int|
                    0 <= i < v@.len() ==> (#[trigger] v@[i])@.len() == shape.keys@.len()
            },
            Err(e) => records(json@, shape@) matches Err(m) && complains(e, m),
        },
{
    let mut p = JsonParser::new(json);
    let ghost b = p.text@;
    p.skip_ws();
    match p.expect('[') {
        Ok(_) => {},
        Err(e) => {
            return Err(e);
        },
    }
    let mut rows: Vec<Vec<String>> = Vec::new();
    p.skip_ws();
    assert(text_rows(rows@) =~= Seq::<Seq<Seq<char>>>::empty());
    if p.pos < p.text.len() && p.text[p.pos] == ']' {
        return Ok(rows);
    }
    let ghost start = p.pos as int;
    loop
        invariant
            p.wf(),
            b == p.text@,
            b == json@,
            records(b, shape@) == records_at(b, start, shape@, Seq::empty()),
            forall|i: int|
                0 <= i < rows@.len() ==> (#[trigger] rows@[i])@.len() == shape.keys@.len(),
            records_at(b, start, shape@, Seq::empty()) == records_at(
                b,
                p.pos as int,
                shape@,
                text_rows(rows@),
            ),
        decreases b.len() - p.pos,
    {
        let ghost q = p.pos as int;
        let ghost before = text_rows(rows@);
        let row = match parse_record(&mut p, shape) {
            Ok(row) => row,
            Err(e) => {
                return Err(e);
            },
        };
        proof {
            lemma_record_moves_on(b, q, shape@);
            lemma_skip_blank(b, p.pos as int);
        }
        rows.push(row);
        assert(text_rows(rows@) =~= before.push(texts(row@)));
        p.skip_ws();
        match p.peek() {
            Some(c) => {
                if c == ',' {
                    p.advance();
                } else if c == ']' {
                    p.advance();
                    return Ok(rows);
                } else {
                    return Err(complaint("expected ',' or ']', got '", c, "'"));
                }
            },
            None => {
                return Err(plain_complaint("unexpected end of input"));
            },
        }
    }
}

// --- Writing a file ---

/// Whether a text is white space.
pub open spec fn are_blanks(s: Seq<char>) -> bool {
    forall|i: int| 0 <= i < s.len() ==> is_blank(#[trigger] s[i])
}

/// Whether `t`, written between quotes, stands for the string `s`: each character
/// as it is, or as one of the escapes.
pub open spec fn is_spelling(t: Seq<char>, s: Seq<char>) -> bool
    decreases t.len(),
{
    if t.len() == 0 {
        s.len() == 0
    } else if t[0] == '\\' {
        t.len() >= 2 && s.len() > 0 && escape(t[1]) == Some(s[0]) && is_spelling(
            t.skip(2),
            s.skip(1),
        )
    } else {
        t[0] != '"' && s.len() > 0 && t[0] == s[0] && is_spelling(t.skip(1), s.skip(1))
    }
}

/// A string as it is written, by its spelling.
pub open spec fn string_json(t: Seq<char>) -> Seq<char> {
    seq!['"'] + (t + seq!['"'])
}

/// A way of writing a field: which one it is, how its name and its value are
/// spelled, and the white space before the name, around the colon, and behind the
/// value.
pub struct WrittenField {
    pub key: int,
    pub name: Seq<char>,
    pub value: Seq<char>,
    pub before: Seq<char>,
    pub before_colon: Seq<char>,
    pub behind_colon: Seq<char>,
    pub behind: Seq<char>,
}

/// A way of writing an object: its fields, in any order, and the white space
/// before and behind it.
pub struct WrittenRecord {
    pub fields: Seq<WrittenField>,
    pub before: Seq<char>,
    pub behind: Seq<char>,
}

/// A way of writing a file: its objects, the white space before the array, and
/// that inside an empty one.
pub struct WrittenFile {
    pub records: Seq<WrittenRecord>,
    pub before: Seq<char>,
    pub inside: Seq<char>,
}

/// A field as it is written.
pub open spec fn field_json(f: WrittenField) -> Seq<char> {
    f.before + (string_json(f.name) + (f.before_colon + (seq![':'] + (f.behind_colon + (
    string_json(f.value) + f.behind)))))
}

/// The fields of an object as they are written, from one of them on, with the
/// closing brace.
pub open spec fn fields_json(fields: Seq<WrittenField>, from: int) -> Seq<char>
    decreases fields.len() - from,
{
    field_json(fields[from]) + if from + 1 < fields.len() {
        seq![','] + fields_json(fields, from + 1)
    } else {
        seq!['}']
    }
}

/// An object as it is written.
pub open spec fn record_json(r: WrittenRecord) -> Seq<char> {
    r.before + (seq!['{'] + (fields_json(r.fields, 0) + r.behind))
}

/// The objects of an array as they are written, from one of them on, with the
/// closing bracket.
pub open spec fn rows_json(records: Seq<WrittenRecord>, from: int) -> Seq<char>
    decreases records.len() - from,
{
    record_json(records[from]) + if from + 1 < records.len() {
        seq![','] + rows_json(records, from + 1)
    } else {
        seq![']']
    }
}

/// A file as it is written.
pub open spec fn file_json(f: WrittenFile) -> Seq<char> {
    f.before + (seq!['['] + if f.records.len() == 0 {
        f.inside + seq![']']
    } else {
        rows_json(f.records, 0)
    })
}

/// Whether a written field is one of the given object.
pub open spec fn is_field_of(
    f: WrittenField,
    keys: Seq<Seq<char>>,
    row: Seq<Seq<char>>,
) -> bool {
    &&& 0 <= f.key < keys.len()
    &&& is_spelling(f.name, keys[f.key])
    &&& is_spelling(f.value, row[f.key])
    &&& are_blanks(f.before)
    &&& are_blanks(f.before_colon)
    &&& are_blanks(f.behind_colon)
    &&& are_blanks(f.behind)
}

/// Whether a written object is the given one: every field is written, and nothing
/// else.
pub open spec fn is_record_of(
    r: WrittenRecord,
    keys: Seq<Seq<char>>,
    row: Seq<Seq<char>>,
) -> bool {
    &&& row.len() == keys.len()
    &&& forall|j: int|
        0 <= j < r.fields.len() ==> is_field_of(#[trigger] r.fields[j], keys, row)
    &&& forall|k: int| 0 <= k < keys.len() ==> #[trigger] is_written(r.fields, k)
    &&& are_blanks(r.before)
    &&& are_blanks(r.behind)
}

/// Whether the field with the given number is among those written.
pub open spec fn is_written(fields: Seq<WrittenField>, k: int) -> bool {
    exists|j: int| 0 <= j < fields.len() && (#[trigger] fields[j]).key == k
}

/// Whether a written file holds the given objects.
pub open spec fn is_file_of(
    f: WrittenFile,
    keys: Seq<Seq<char>>,
    rows: Seq<Seq<Seq<char>>>,
) -> bool {
    &&& f.records.len() == rows.len()
    &&& forall|i: int|
        0 <= i < rows.len() ==> is_record_of(#[trigger] f.records[i], keys, rows[i])
    &&& are_blanks(f.before)
    &&& are_blanks(f.inside)
}

/// Whether there are field names, no two of them the same.
pub open spec fn are_keys(keys: Seq<Seq<char>>) -> bool {
    keys.len() > 0 && keys.no_duplicates()
}

/// Whether `x` stands in `b` at position `p`.
spec fn stands_at(b: Seq<char>, p: int, x: Seq<char>) -> bool {
    0 <= p && p + x.len() <= b.len() && b.subrange(p, p + x.len()) == x
}

proof fn lemma_stands_apart(b: Seq<char>, p: int, x: Seq<char>, y: Seq<char>)
    requires
        stands_at(b, p, x + y),
    ensures
        stands_at(b, p, x),
        stands_at(b, p + x.len(), y),
{
    let s = b.subrange(p, p + (x + y).len());
    assert(b.subrange(p, p + x.len()) =~= s.subrange(0, x.len() as int));
    assert(s.subrange(0, x.len() as int) =~= x);
    assert(b.subrange(p + x.len(), p + x.len() + y.len()) =~= s.subrange(
        x.len() as int,
        s.len() as int,
    ));
    assert(s.subrange(x.len() as int, s.len() as int) =~= y);
}

proof fn lemma_char_stands(b: Seq<char>, p: int, x: char, y: Seq<char>)
    requires
        stands_at(b, p, seq![x] + y),
    ensures
        0 <= p < b.len(),
        b[p] == x,
        stands_at(b, p + 1, y),
{
    lemma_stands_apart(b, p, seq![x], y);
    assert(b.subrange(p, p + 1)[0] == x);
}

/// White space is skipped up to the first character that is none.
proof fn lemma_blanks_skipped(b: Seq<char>, p: int, w: Seq<char>, x: char, y: Seq<char>)
    requires
        stands_at(b, p, w + (seq![x] + y)),
        are_blanks(w),
        !is_blank(x),
    ensures
        skip_blank(b, p) == p + w.len(),
        skip_blank(b, p + w.len()) == p + w.len(),
        b[p + w.len()] == x,
        p + w.len() < b.len(),
        stands_at(b, p + w.len(), seq![x] + y),
        stands_at(b, p + w.len() + 1, y),
    decreases w.len(),
{
    lemma_stands_apart(b, p, w, seq![x] + y);
    lemma_char_stands(b, p + w.len(), x, y);
    if w.len() > 0 {
        let rest = w.skip(1);
        assert(w + (seq![x] + y) =~= seq![w[0]] + (rest + (seq![x] + y)));
        lemma_char_stands(b, p, w[0], rest + (seq![x] + y));
        assert forall|i: int| 0 <= i < rest.len() implies is_blank(#[trigger] rest[i]) by {
            assert(is_blank(w[i + 1]));
        }
        assert(is_blank(w[0]));
        lemma_blanks_skipped(b, p + 1, rest, x, y);
    }
}

proof fn lemma_spelling_read_back(b: Seq<char>, p: int, t: Seq<char>, s: Seq<char>, y: Seq<char>)
    requires
        stands_at(b, p, t + (seq!['"'] + y)),
        is_spelling(t, s),
    ensures
        string_rest(b, p) == Ok::<(Seq<char>, int), Seq<char>>((s, p + t.len() + 1)),
        stands_at(b, p + t.len() + 1, y),
    decreases t.len(),
{
    lemma_stands_apart(b, p, t, seq!['"'] + y);
    lemma_char_stands(b, p + t.len(), '"', y);
    if t.len() == 0 {
        assert(s =~= Seq::empty());
    } else {
        let n: int = if t[0] == '\\' {
            2
        } else {
            1
        };
        let rest = t.skip(n);
        assert(t + (seq!['"'] + y) =~= t.take(n) + (rest + (seq!['"'] + y)));
        lemma_stands_apart(b, p, t.take(n), rest + (seq!['"'] + y));
        assert(b.subrange(p, p + n)[0] == t[0]);
        if n == 2 {
            assert(b.subrange(p, p + n)[1] == t[1]);
        }
        lemma_spelling_read_back(b, p + n, rest, s.skip(1), y);
        assert(seq![s[0]] + s.skip(1) =~= s);
    }
}

/// A string that stands in the text, behind white space and before something.
proof fn lemma_string_read_back(
    b: Seq<char>,
    p: int,
    w: Seq<char>,
    t: Seq<char>,
    s: Seq<char>,
    y: Seq<char>,
)
    requires
        stands_at(b, p, w + (string_json(t) + y)),
        are_blanks(w),
        is_spelling(t, s),
    ensures
        string_at(b, skip_blank(b, p)) == Ok::<(Seq<char>, int), Seq<char>>(
            (s, p + w.len() + string_json(t).len()),
        ),
        skip_blank(b, skip_blank(b, p)) == skip_blank(b, p),
        skip_blank(b, p) == p + w.len(),
        p + w.len() < b.len(),
        b[p + w.len()] == '"',
        stands_at(b, p + w.len() + string_json(t).len(), y),
{
    let body = t + (seq!['"'] + y);
    assert(string_json(t) + y =~= seq!['"'] + body);
    lemma_blanks_skipped(b, p, w, '"', body);
    lemma_spelling_read_back(b, p + w.len() + 1, t, s, y);
}

proof fn lemma_key_found(keys: Seq<Seq<char>>, k: int, from: int)
    requires
        keys.no_duplicates(),
        0 <= from <= k < keys.len(),
    ensures
        key_index(keys, keys[k], from) == Some(k),
    decreases k - from,
{
    if from < k {
        assert(keys[from] != keys[k]);
        lemma_key_found(keys, k, from + 1);
    }
}

/// A field that stands in the text, before something that is no white space.
proof fn lemma_field_read_back(
    b: Seq<char>,
    p: int,
    f: WrittenField,
    keys: Seq<Seq<char>>,
    row: Seq<Seq<char>>,
    x: char,
    y: Seq<char>,
)
    requires
        is_field_of(f, keys, row),
        !is_blank(x),
        stands_at(b, p, field_json(f) + (seq![x] + y)),
    ensures
        field_at(b, p) matches Ok((key, value, q)) && key == keys[f.key] && value == row[f.key]
            && skip_blank(b, q) == p + field_json(f).len(),
        field_at(b, skip_blank(b, p)) == field_at(b, p),
        p <= skip_blank(b, p) < b.len(),
        b[skip_blank(b, p)] == '"',
        p + field_json(f).len() < b.len(),
        b[p + field_json(f).len()] == x,
        stands_at(b, p + field_json(f).len() + 1, y),
{
    let end = f.behind + (seq![x] + y);
    let value = string_json(f.value) + end;
    let colon = seq![':'] + (f.behind_colon + value);
    assert(field_json(f) + (seq![x] + y) =~= f.before + (string_json(f.name) + (f.before_colon
        + colon)));
    lemma_string_read_back(b, p, f.before, f.name, keys[f.key], f.before_colon + colon);
    let q = p + f.before.len() + string_json(f.name).len();
    lemma_blanks_skipped(b, q, f.before_colon, ':', f.behind_colon + value);
    let r = q + f.before_colon.len() + 1;
    lemma_string_read_back(b, r, f.behind_colon, f.value, row[f.key], end);
    let s = r + f.behind_colon.len() + string_json(f.value).len();
    lemma_blanks_skipped(b, s, f.behind, x, y);
}

/// Whether what was read of an object so far is right.
spec fn is_part_of(have: Seq<Option<Seq<char>>>, row: Seq<Seq<char>>) -> bool {
    &&& have.len() == row.len()
    &&& forall|k: int| 0 <= k < row.len() ==> (#[trigger] have[k] matches Some(v) ==> v == row[k])
}

proof fn lemma_fields_read_back(
    b: Seq<char>,
    p: int,
    schema: Schema,
    row: Seq<Seq<char>>,
    fields: Seq<WrittenField>,
    from: int,
    have: Seq<Option<Seq<char>>>,
    y: Seq<char>,
)
    requires
        are_keys(schema.keys),
        row.len() == schema.keys.len(),
        forall|j: int|
            0 <= j < fields.len() ==> is_field_of(#[trigger] fields[j], schema.keys, row),
        0 <= from < fields.len(),
        is_part_of(have, row),
        stands_at(b, p, fields_json(fields, from) + y),
    ensures
        fields_at(b, p, schema, have) matches Ok((got, q)) && is_part_of(got, row) && q == p
            + fields_json(fields, from).len() && (forall|k: int|
            0 <= k < row.len() && (#[trigger] have[k]) is Some ==> got[k] is Some) && (forall|
            j: int,
        | from <= j < fields.len() ==> got[(#[trigger] fields[j]).key] is Some),
        fields_at(b, skip_blank(b, p), schema, have) == fields_at(b, p, schema, have),
        p <= skip_blank(b, p) < b.len(),
        b[skip_blank(b, p)] == '"',
        stands_at(b, p + fields_json(fields, from).len(), y),
    decreases fields.len() - from,
{
    let f = fields[from];
    let now = have.update(f.key, Some(row[f.key]));
    assert(is_field_of(f, schema.keys, row));
    lemma_key_found(schema.keys, f.key, 0);
    lemma_stands_apart(b, p, fields_json(fields, from), y);
    let r = p + field_json(f).len();
    if from + 1 < fields.len() {
        let rest = fields_json(fields, from + 1) + y;
        assert(fields_json(fields, from) + y =~= field_json(f) + (seq![','] + rest));
        lemma_field_read_back(b, p, f, schema.keys, row, ',', rest);
        lemma_fields_read_back(b, r + 1, schema, row, fields, from + 1, now, y);
        let got = fields_at(b, r + 1, schema, now)->Ok_0.0;
        assert(now[f.key] is Some);
        assert forall|k: int| 0 <= k < row.len() && (#[trigger] have[k]) is Some implies
            got[k] is Some by {
            assert(now[k] is Some);
        }
    } else {
        assert(fields_json(fields, from) + y =~= field_json(f) + (seq!['}'] + y));
        lemma_field_read_back(b, p, f, schema.keys, row, '}', y);
    }
}

proof fn lemma_all_complete(
    keys: Seq<Seq<char>>,
    have: Seq<Option<Seq<char>>>,
    row: Seq<Seq<char>>,
    from: int,
)
    requires
        row.len() == keys.len(),
        is_part_of(have, row),
        forall|k: int| 0 <= k < row.len() ==> (#[trigger] have[k]) is Some,
        0 <= from <= keys.len(),
    ensures
        complete(keys, have, from) == Ok::<Seq<Seq<char>>, Seq<char>>(row),
    decreases keys.len() - from,
{
    if from < keys.len() {
        assert(have[from] is Some);
        lemma_all_complete(keys, have, row, from + 1);
    } else {
        assert(have.map_values(|o: Option<Seq<char>>| o->0) =~= row);
    }
}

/// An object that stands in the text, before something that is no white space.
proof fn lemma_record_read_back(
    b: Seq<char>,
    p: int,
    schema: Schema,
    r: WrittenRecord,
    row: Seq<Seq<char>>,
    x: char,
    y: Seq<char>,
)
    requires
        are_keys(schema.keys),
        is_record_of(r, schema.keys, row),
        !is_blank(x),
        stands_at(b, p, record_json(r) + (seq![x] + y)),
    ensures
        record_at(b, p, schema) matches Ok((values, q)) && values == row && skip_blank(b, q) == p
            + record_json(r).len(),
        record_at(b, skip_blank(b, p), schema) == record_at(b, p, schema),
        p <= skip_blank(b, p) < b.len(),
        b[skip_blank(b, p)] == '{',
        p + record_json(r).len() < b.len(),
        b[p + record_json(r).len()] == x,
        stands_at(b, p + record_json(r).len() + 1, y),
{
    let end = r.behind + (seq![x] + y);
    let body = fields_json(r.fields, 0) + end;
    assert(record_json(r) + (seq![x] + y) =~= r.before + (seq!['{'] + body));
    lemma_blanks_skipped(b, p, r.before, '{', body);
    assert(is_written(r.fields, 0));
    let q = p + r.before.len() + 1;
    let none = no_fields(schema.keys.len());
    lemma_fields_read_back(b, q, schema, row, r.fields, 0, none, end);
    let (got, s) = fields_at(b, q, schema, none)->Ok_0;
    assert forall|k: int| 0 <= k < row.len() implies (#[trigger] got[k]) is Some by {
        assert(is_written(r.fields, k));
    }
    lemma_all_complete(schema.keys, got, row, 0);
    lemma_blanks_skipped(b, s, r.behind, x, y);
}

proof fn lemma_rows_read_back(
    b: Seq<char>,
    p: int,
    schema: Schema,
    records: Seq<WrittenRecord>,
    rows: Seq<Seq<Seq<char>>>,
    from: int,
    y: Seq<char>,
)
    requires
        are_keys(schema.keys),
        records.len() == rows.len(),
        forall|i: int|
            0 <= i < rows.len() ==> is_record_of(#[trigger] records[i], schema.keys, rows[i]),
        0 <= from < rows.len(),
        stands_at(b, p, rows_json(records, from) + y),
    ensures
        records_at(b, p, schema, rows.take(from)) == Ok::<Seq<Seq<Seq<char>>>, Seq<char>>(rows),
        records_at(b, skip_blank(b, p), schema, rows.take(from)) == records_at(
            b,
            p,
            schema,
            rows.take(from),
        ),
        p <= skip_blank(b, p) < b.len(),
        b[skip_blank(b, p)] == '{',
    decreases rows.len() - from,
{
    let one = records[from];
    assert(is_record_of(one, schema.keys, rows[from]));
    assert(rows.take(from).push(rows[from]) =~= rows.take(from + 1));
    let q = p + record_json(one).len();
    if from + 1 < rows.len() {
        let rest = rows_json(records, from + 1) + y;
        assert(rows_json(records, from) + y =~= record_json(one) + (seq![','] + rest));
        lemma_record_read_back(b, p, schema, one, rows[from], ',', rest);
        lemma_rows_read_back(b, q + 1, schema, records, rows, from + 1, y);
    } else {
        assert(rows_json(records, from) + y =~= record_json(one) + (seq![']'] + y));
        lemma_record_read_back(b, p, schema, one, rows[from], ']', y);
        assert(rows.take(from + 1) =~= rows);
    }
}

/// Reading a file gives back what was written to it, in whatever order the fields
/// of each object stand, whatever white space is between the tokens, however the
/// strings are spelled, and whatever follows the array.
#[verifier::rlimit(40)]
pub proof fn records_read_back(
    schema: Schema,
    file: WrittenFile,
    rows: Seq<Seq<Seq<char>>>,
    after: Seq<char>,
)
    requires
        are_keys(schema.keys),
        is_file_of(file, schema.keys, rows),
    ensures
        records(file_json(file) + after, schema) == Ok::<Seq<Seq<Seq<char>>>, Seq<char>>(rows),
{
    let b = file_json(file) + after;
    assert(b.subrange(0, b.len() as int) =~= b);
    if rows.len() == 0 {
        let body = file.inside + (seq![']'] + after);
        assert(b =~= file.before + (seq!['['] + body));
        lemma_blanks_skipped(b, 0, file.before, '[', body);
        lemma_blanks_skipped(b, 1 + file.before.len() as int, file.inside, ']', after);
        assert(rows =~= Seq::empty());
    } else {
        let body = rows_json(file.records, 0) + after;
        assert(b =~= file.before + (seq!['['] + body));
        lemma_blanks_skipped(b, 0, file.before, '[', body);
        assert(rows.take(0) =~= Seq::empty());
        lemma_rows_read_back(
            b,
            1 + file.before.len() as int,
            schema,
            file.records,
            rows,
            0,
            after,
        );
    }
}

/// The plainest spelling of a string: a backslash before each quote and each
/// backslash.
pub open spec fn plain_spelling(s: Seq<char>) -> Seq<char>
    decreases s.len(),
{
    if s.len() == 0 {
        Seq::empty()
    } else if s[0] == '"' || s[0] == '\\' {
        seq!['\\', s[0]] + plain_spelling(s.skip(1))
    } else {
        seq![s[0]] + plain_spelling(s.skip(1))
    }
}

proof fn lemma_plain_spelling(s: Seq<char>)
    ensures
        is_spelling(plain_spelling(s), s),
    decreases s.len(),
{
    if s.len() > 0 {
        let t = plain_spelling(s);
        let rest = plain_spelling(s.skip(1));
        lemma_plain_spelling(s.skip(1));
        if s[0] == '"' || s[0] == '\\' {
            assert(t.skip(2) =~= rest);
        } else {
            assert(t.skip(1) =~= rest);
        }
    }
}

/// The plainest way of writing objects: the fields in the order of their names,
/// without white space.
pub open spec fn plain_file(keys: Seq<Seq<char>>, rows: Seq<Seq<Seq<char>>>) -> WrittenFile {
    WrittenFile {
        records: rows.map_values(
            |row: Seq<Seq<char>>|
                WrittenRecord {
                    fields: Seq::new(
                        keys.len(),
                        |k: int|
                            WrittenField {
                                key: k,
                                name: plain_spelling(keys[k]),
                                value: plain_spelling(row[k]),
                                before: Seq::empty(),
                                before_colon: Seq::empty(),
                                behind_colon: Seq::empty(),
                                behind: Seq::empty(),
                            },
                    ),
                    before: Seq::empty(),
                    behind: Seq::empty(),
                },
        ),
        before: Seq::empty(),
        inside: Seq::empty(),
    }
}

/// Any objects that have all fields can be written.
pub proof fn any_file_can_be_written(keys: Seq<Seq<char>>, rows: Seq<Seq<Seq<char>>>)
    requires
        forall|i: int| 0 <= i < rows.len() ==> (#[trigger] rows[i]).len() == keys.len(),
    ensures
        is_file_of(plain_file(keys, rows), keys, rows),
{
    let f = plain_file(keys, rows);
    assert forall|i: int| 0 <= i < rows.len() implies is_record_of(
        #[trigger] f.records[i],
        keys,
        rows[i],
    ) by {
        let fields = f.records[i].fields;
        assert(rows[i].len() == keys.len());
        assert forall|j: int| 0 <= j < fields.len() implies is_field_of(
            #[trigger] fields[j],
            keys,
            rows[i],
        ) by {
            lemma_plain_spelling(keys[j]);
            lemma_plain_spelling(rows[i][j]);
        }
        assert forall|k: int| 0 <= k < keys.len() implies #[trigger] is_written(fields, k) by {
            assert(fields[k].key == k);
        }
    }
}

// --- Nothing else is read ---

/// What may stand behind a backslash, and what it stands for.
pub proof fn escapes_stand_for_characters(c: char)
    ensures
        escape('n') == Some('\n'),
        escape('t') == Some('\t'),
        escape('r') == Some('\r'),
        escape('"') == Some('"'),
        escape('\\') == Some('\\'),
        escape('/') == Some('/'),
        c != 'n' && c != 't' && c != 'r' && c != '"' && c != '\\' && c != '/' ==> escape(c) is None,
{
}

/// What counts as white space between tokens.
pub proof fn blanks_are_these(c: char)
    ensures
        is_blank(c) <==> c == ' ' || c == '\t' || c == '\n' || c == '\r',
{
}

/// Whether a field was written with a name that is known, and with some string for its
/// value.
pub open spec fn is_some_field(f: WrittenField, keys: Seq<Seq<char>>) -> bool {
    &&& 0 <= f.key < keys.len()
    &&& is_spelling(f.name, keys[f.key])
    &&& exists|value: Seq<char>| #[trigger] is_spelling(f.value, value)
    &&& are_blanks(f.before)
    &&& are_blanks(f.before_colon)
    &&& are_blanks(f.behind_colon)
    &&& are_blanks(f.behind)
}

/// Whether the last of the fields with the given number spells the given value.
pub open spec fn is_last_value(fields: Seq<WrittenField>, k: int, value: Seq<char>) -> bool {
    exists|j: int|
        {
            &&& 0 <= j < fields.len()
            &&& (#[trigger] fields[j]).key == k
            &&& is_spelling(fields[j].value, value)
            &&& forall|i: int| j < i < fields.len() ==> (#[trigger] fields[i]).key != k
        }
}

/// Whether a written object tells the given values: every field is known, every name is
/// there, and where one is there more than once the last counts.
pub open spec fn tells_record(
    r: WrittenRecord,
    keys: Seq<Seq<char>>,
    row: Seq<Seq<char>>,
) -> bool {
    &&& row.len() == keys.len()
    &&& r.fields.len() > 0
    &&& forall|j: int| 0 <= j < r.fields.len() ==> is_some_field(#[trigger] r.fields[j], keys)
    &&& forall|k: int|
        0 <= k < keys.len() ==> is_last_value(r.fields, k, #[trigger] row[k])
    &&& are_blanks(r.before)
    &&& are_blanks(r.behind)
}

/// Whether a written file tells the given objects.
pub open spec fn tells_file(
    f: WrittenFile,
    keys: Seq<Seq<char>>,
    rows: Seq<Seq<Seq<char>>>,
) -> bool {
    &&& f.records.len() == rows.len()
    &&& forall|i: int|
        0 <= i < rows.len() ==> tells_record(#[trigger] f.records[i], keys, rows[i])
    &&& are_blanks(f.before)
    &&& are_blanks(f.inside)
}

proof fn lemma_blanks_before(b: Seq<char>, p: int)
    requires
        0 <= p <= b.len(),
    ensures
        p <= skip_blank(b, p) <= b.len(),
        are_blanks(b.subrange(p, skip_blank(b, p))),
    decreases b.len() - p,
{
    if p < b.len() && is_blank(b[p]) {
        lemma_blanks_before(b, p + 1);
        let q = skip_blank(b, p);
        let w = b.subrange(p, q);
        assert forall|i: int| 0 <= i < w.len() implies is_blank(#[trigger] w[i]) by {
            if i > 0 {
                assert(b.subrange(p + 1, q)[i - 1] == w[i]);
            }
        }
    }
}

proof fn lemma_spelling_was_written(b: Seq<char>, p: int)
    requires
        0 <= p,
        string_rest(b, p) is Ok,
    ensures
        string_rest(b, p) matches Ok((s, q)) && p < q <= b.len() && b[q - 1] == '"' && is_spelling(
            b.subrange(p, q - 1),
            s,
        ),
    decreases b.len() - p,
{
    if b[p] == '"' {
        assert(b.subrange(p, p) =~= Seq::empty());
    } else {
        let n: int = if b[p] == '\\' {
            2
        } else {
            1
        };
        lemma_spelling_was_written(b, p + n);
        if let Ok((s, q)) = string_rest(b, p) {
            let t = b.subrange(p, q - 1);
            assert(t.skip(n) =~= b.subrange(p + n, q - 1));
            assert(s.skip(1) =~= string_rest(b, p + n)->Ok_0.0);
        }
    }
}

proof fn lemma_string_was_written(b: Seq<char>, p: int) -> (t: Seq<char>)
    requires
        0 <= p,
        string_at(b, p) is Ok,
    ensures
        string_at(b, p) matches Ok((s, q)) && p < q <= b.len() && b.subrange(p, q) == string_json(t)
            && is_spelling(t, s),
{
    lemma_spelling_was_written(b, p + 1);
    let (s, q) = string_rest(b, p + 1)->Ok_0;
    let t = b.subrange(p + 1, q - 1);
    assert(b.subrange(p, q) =~= string_json(t));
    t
}

proof fn lemma_field_was_written(b: Seq<char>, p: int, key: int) -> (f: WrittenField)
    requires
        0 <= p <= b.len(),
        field_at(b, p) is Ok,
    ensures
        field_at(b, p) matches Ok((name, value, q)) && {
            &&& p < q <= skip_blank(b, q) <= b.len()
            &&& b.subrange(p, skip_blank(b, q)) == field_json(f)
            &&& f.key == key
            &&& is_spelling(f.name, name)
            &&& is_spelling(f.value, value)
            &&& are_blanks(f.before)
            &&& are_blanks(f.before_colon)
            &&& are_blanks(f.behind_colon)
            &&& are_blanks(f.behind)
        },
{
    lemma_blanks_before(b, p);
    let a = skip_blank(b, p);
    let name = lemma_string_was_written(b, a);
    let c = string_at(b, a)->Ok_0.1;
    lemma_blanks_before(b, c);
    let d = skip_blank(b, c);
    assert(b[d] == ':');
    lemma_blanks_before(b, d + 1);
    let e = skip_blank(b, d + 1);
    let value = lemma_string_was_written(b, e);
    let g = string_at(b, e)->Ok_0.1;
    lemma_blanks_before(b, g);
    let h = skip_blank(b, g);
    let f = WrittenField {
        key,
        name,
        value,
        before: b.subrange(p, a),
        before_colon: b.subrange(c, d),
        behind_colon: b.subrange(d + 1, e),
        behind: b.subrange(g, h),
    };
    lemma_seven_parts(b, p, a, c, d, e, g, h);
    f
}

proof fn lemma_seven_parts(
    b: Seq<char>,
    p: int,
    a: int,
    c: int,
    d: int,
    e: int,
    g: int,
    h: int,
)
    requires
        0 <= p <= a <= c <= d < d + 1 <= e <= g <= h <= b.len(),
        b[d] == ':',
    ensures
        b.subrange(p, h) == b.subrange(p, a) + (b.subrange(a, c) + (b.subrange(c, d) + (seq![':']
            + (b.subrange(d + 1, e) + (b.subrange(e, g) + b.subrange(g, h)))))),
{
    assert(b.subrange(d, d + 1) =~= seq![':']);
    assert(b.subrange(e, h) =~= b.subrange(e, g) + b.subrange(g, h));
    assert(b.subrange(d + 1, h) =~= b.subrange(d + 1, e) + b.subrange(e, h));
    assert(b.subrange(d, h) =~= b.subrange(d, d + 1) + b.subrange(d + 1, h));
    assert(b.subrange(c, h) =~= b.subrange(c, d) + b.subrange(d, h));
    assert(b.subrange(a, h) =~= b.subrange(a, c) + b.subrange(c, h));
    assert(b.subrange(p, h) =~= b.subrange(p, a) + b.subrange(a, h));
}

proof fn lemma_fields_shift(f: WrittenField, fields: Seq<WrittenField>, from: int)
    requires
        0 <= from < fields.len(),
    ensures
        fields_json(seq![f] + fields, from + 1) == fields_json(fields, from),
    decreases fields.len() - from,
{
    assert((seq![f] + fields)[from + 1] == fields[from]);
    if from + 1 < fields.len() {
        lemma_fields_shift(f, fields, from + 1);
    }
}

proof fn lemma_key_index(keys: Seq<Seq<char>>, key: Seq<char>, from: int)
    requires
        0 <= from,
    ensures
        key_index(keys, key, from) matches Some(k) ==> from <= k < keys.len() && keys[k] == key,
    decreases keys.len() - from,
{
    if from < keys.len() && keys[from] != key {
        lemma_key_index(keys, key, from + 1);
    }
}

/// What is known of an object once fields were read: the last value of each that was
/// among them, and of the others what was known before.
spec fn are_taken(
    fields: Seq<WrittenField>,
    have: Seq<Option<Seq<char>>>,
    got: Seq<Option<Seq<char>>>,
) -> bool {
    &&& got.len() == have.len()
    &&& forall|k: int|
        0 <= k < got.len() ==> (#[trigger] got[k] matches Some(v) ==> is_last_value(fields, k, v)
            || (have[k] == Some(v) && !is_written(fields, k)))
}

proof fn lemma_fields_were_written(
    b: Seq<char>,
    p: int,
    schema: Schema,
    have: Seq<Option<Seq<char>>>,
) -> (fields: Seq<WrittenField>)
    requires
        0 <= p <= b.len(),
        have.len() == schema.keys.len(),
        fields_at(b, p, schema, have) is Ok,
    ensures
        fields_at(b, p, schema, have) matches Ok((got, q)) && {
            &&& p < q <= b.len()
            &&& b.subrange(p, q) == fields_json(fields, 0)
            &&& fields.len() > 0
            &&& forall|j: int|
                0 <= j < fields.len() ==> is_some_field(#[trigger] fields[j], schema.keys)
            &&& are_taken(fields, have, got)
        },
    decreases b.len() - p,
{
    let (key, value, q) = field_at(b, p)->Ok_0;
    lemma_key_index(schema.keys, key, 0);
    let k = key_index(schema.keys, key, 0)->0;
    let f = lemma_field_was_written(b, p, k);
    assert(is_some_field(f, schema.keys));
    let now = have.update(k, Some(value));
    let r = skip_blank(b, q);
    let (got, end) = fields_at(b, p, schema, have)->Ok_0;
    if b[r] == ',' {
        let rest = lemma_fields_were_written(b, r + 1, schema, now);
        let fields = seq![f] + rest;
        lemma_fields_shift(f, rest, 0);
        assert(b.subrange(p, end) =~= b.subrange(p, r) + (seq![','] + b.subrange(r + 1, end)));
        assert forall|j: int| 0 <= j < fields.len() implies is_some_field(
            #[trigger] fields[j],
            schema.keys,
        ) by {
            if j > 0 {
                assert(fields[j] == rest[j - 1]);
            }
        }
        lemma_taken_behind(f, value, rest, have, got);
        fields
    } else {
        let fields = seq![f];
        assert(b.subrange(p, end) =~= b.subrange(p, r) + seq!['}']);
        assert forall|m: int| 0 <= m < got.len() implies (#[trigger] got[m] matches Some(v)
            ==> is_last_value(fields, m, v) || (have[m] == Some(v) && !is_written(fields, m))) by {
            if m == k {
                assert(fields[0].key == k);
            }
        }
        fields
    }
}

proof fn lemma_taken_behind(
    f: WrittenField,
    value: Seq<char>,
    rest: Seq<WrittenField>,
    have: Seq<Option<Seq<char>>>,
    got: Seq<Option<Seq<char>>>,
)
    requires
        0 <= f.key < have.len(),
        is_spelling(f.value, value),
        are_taken(rest, have.update(f.key, Some(value)), got),
    ensures
        are_taken(seq![f] + rest, have, got),
{
    let fields = seq![f] + rest;
    assert forall|m: int| 0 <= m < got.len() implies (#[trigger] got[m] matches Some(v)
        ==> is_last_value(fields, m, v) || (have[m] == Some(v) && !is_written(fields, m))) by {
        if let Some(v) = got[m] {
            if is_last_value(rest, m, v) {
                let j = choose|j: int|
                    0 <= j < rest.len() && (#[trigger] rest[j]).key == m && is_spelling(
                        rest[j].value,
                        v,
                    ) && forall|i: int| j < i < rest.len() ==> (#[trigger] rest[i]).key != m;
                assert(fields[j + 1] == rest[j]);
                assert forall|i: int| j + 1 < i < fields.len() implies (#[trigger] fields[i]).key
                    != m by {
                    assert(fields[i] == rest[i - 1]);
                }
                assert(is_last_value(fields, m, v));
            } else if m == f.key {
                assert(fields[0] == f);
                assert forall|i: int| 0 < i < fields.len() implies (#[trigger] fields[i]).key
                    != m by {
                    assert(fields[i] == rest[i - 1]);
                    if rest[i - 1].key == m {
                        assert(is_written(rest, m));
                    }
                }
                assert(is_last_value(fields, m, v));
            } else {
                if is_written(fields, m) {
                    let j = choose|j: int| 0 <= j < fields.len() && (#[trigger] fields[j]).key == m;
                    assert(fields[j] == rest[j - 1]);
                    assert(is_written(rest, m));
                }
            }
        }
    }
}

proof fn lemma_complete_has_all(
    keys: Seq<Seq<char>>,
    have: Seq<Option<Seq<char>>>,
    from: int,
)
    requires
        0 <= from <= keys.len(),
        have.len() == keys.len(),
        complete(keys, have, from) is Ok,
    ensures
        complete(keys, have, from) == Ok::<Seq<Seq<char>>, Seq<char>>(
            have.map_values(|o: Option<Seq<char>>| o->0),
        ),
        forall|k: int| from <= k < keys.len() ==> (#[trigger] have[k]) is Some,
    decreases keys.len() - from,
{
    if from < keys.len() {
        lemma_complete_has_all(keys, have, from + 1);
    }
}

proof fn lemma_record_was_written(b: Seq<char>, p: int, schema: Schema) -> (r: WrittenRecord)
    requires
        0 <= p <= b.len(),
        record_at(b, p, schema) is Ok,
    ensures
        record_at(b, p, schema) matches Ok((row, q)) && {
            &&& p < q <= skip_blank(b, q) <= b.len()
            &&& b.subrange(p, skip_blank(b, q)) == record_json(r)
            &&& tells_record(r, schema.keys, row)
        },
{
    let (row, q) = record_at(b, p, schema)->Ok_0;
    lemma_blanks_before(b, p);
    let a = skip_blank(b, p);
    lemma_blanks_before(b, a + 1);
    let c = skip_blank(b, a + 1);
    let none = no_fields(schema.keys.len());
    let read = lemma_fields_were_written(b, c, schema, none);
    let (got, end) = fields_at(b, c, schema, none)->Ok_0;
    lemma_complete_has_all(schema.keys, got, 0);
    lemma_blanks_before(b, q);
    let d = skip_blank(b, q);
    let first = WrittenField { before: b.subrange(a + 1, c) + read[0].before, ..read[0] };
    let fields = read.update(0, first);
    assert(are_blanks(first.before));
    let r = WrittenRecord { fields, before: b.subrange(p, a), behind: b.subrange(q, d) };
    lemma_first_field_moved(read, b.subrange(a + 1, c));
    assert(b.subrange(p, d) =~= b.subrange(p, a) + (seq!['{'] + ((b.subrange(a + 1, c)
        + b.subrange(c, q)) + b.subrange(q, d))));
    assert forall|j: int| 0 <= j < fields.len() implies is_some_field(
        #[trigger] fields[j],
        schema.keys,
    ) by {
        assert(is_some_field(read[j], schema.keys));
    }
    assert forall|k: int| 0 <= k < schema.keys.len() implies is_last_value(
        fields,
        k,
        #[trigger] row[k],
    ) by {
        assert(got[k] is Some);
        assert(none[k] is None);
        assert(is_last_value(read, k, row[k]));
        let j = choose|j: int|
            0 <= j < read.len() && (#[trigger] read[j]).key == k && is_spelling(
                read[j].value,
                row[k],
            ) && forall|i: int| j < i < read.len() ==> (#[trigger] read[i]).key != k;
        assert(fields[j].key == k && fields[j].value == read[j].value);
        assert forall|i: int| j < i < fields.len() implies (#[trigger] fields[i]).key != k by {
            assert(read[i].key != k);
        }
    }
    r
}

proof fn lemma_first_field_moved(fields: Seq<WrittenField>, w: Seq<char>)
    requires
        fields.len() > 0,
    ensures
        fields_json(
            fields.update(0, WrittenField { before: w + fields[0].before, ..fields[0] }),
            0,
        ) == w + fields_json(fields, 0),
{
    let f = fields[0];
    let g = WrittenField { before: w + f.before, ..f };
    let moved = fields.update(0, g);
    let body = string_json(f.name) + (f.before_colon + (seq![':'] + (f.behind_colon + (string_json(
        f.value,
    ) + f.behind))));
    assert(field_json(g) =~= w + field_json(f)) by {
        assert((w + f.before) + body =~= w + (f.before + body));
    }
    if fields.len() > 1 {
        lemma_fields_behind_alike(fields, moved, 1);
        let rest = seq![','] + fields_json(fields, 1);
        assert((w + field_json(f)) + rest =~= w + (field_json(f) + rest));
    } else {
        assert((w + field_json(f)) + seq!['}'] =~= w + (field_json(f) + seq!['}']));
    }
}

proof fn lemma_fields_behind_alike(a: Seq<WrittenField>, b: Seq<WrittenField>, from: int)
    requires
        a.len() == b.len(),
        0 <= from < a.len(),
        forall|i: int| from <= i < a.len() ==> a[i] == b[i],
    ensures
        fields_json(a, from) == fields_json(b, from),
    decreases a.len() - from,
{
    if from + 1 < a.len() {
        lemma_fields_behind_alike(a, b, from + 1);
    }
}

proof fn lemma_rows_shift(r: WrittenRecord, records: Seq<WrittenRecord>, from: int)
    requires
        0 <= from < records.len(),
    ensures
        rows_json(seq![r] + records, from + 1) == rows_json(records, from),
    decreases records.len() - from,
{
    assert((seq![r] + records)[from + 1] == records[from]);
    if from + 1 < records.len() {
        lemma_rows_shift(r, records, from + 1);
    }
}

proof fn lemma_rows_were_written(
    b: Seq<char>,
    p: int,
    schema: Schema,
    done: Seq<Seq<Seq<char>>>,
) -> (w: (Seq<WrittenRecord>, int))
    requires
        0 <= p <= b.len(),
        records_at(b, p, schema, done) is Ok,
    ensures
        records_at(b, p, schema, done) matches Ok(rows) && {
            &&& p < w.1 <= b.len()
            &&& b.subrange(p, w.1) == rows_json(w.0, 0)
            &&& w.0.len() > 0
            &&& rows.len() == done.len() + w.0.len()
            &&& rows.take(done.len() as int) == done
            &&& forall|i: int|
                0 <= i < w.0.len() ==> tells_record(
                    #[trigger] w.0[i],
                    schema.keys,
                    rows[done.len() + i],
                )
        },
    decreases b.len() - p,
{
    let (row, q) = record_at(b, p, schema)->Ok_0;
    let one = lemma_record_was_written(b, p, schema);
    let now = done.push(row);
    let r = skip_blank(b, q);
    let rows = records_at(b, p, schema, done)->Ok_0;
    if b[r] == ',' {
        let (rest, end) = lemma_rows_were_written(b, r + 1, schema, now);
        let all = seq![one] + rest;
        lemma_rows_shift(one, rest, 0);
        assert(b.subrange(p, end) =~= b.subrange(p, r) + (seq![','] + b.subrange(r + 1, end)));
        assert(rows.take(done.len() as int) =~= rows.take(now.len() as int).take(
            done.len() as int,
        ));
        assert(rows.take(done.len() as int) =~= done);
        assert(rows[done.len() as int] == rows.take(now.len() as int)[done.len() as int]);
        assert forall|i: int| 0 <= i < all.len() implies tells_record(
            #[trigger] all[i],
            schema.keys,
            rows[done.len() + i],
        ) by {
            if i > 0 {
                assert(all[i] == rest[i - 1]);
                assert(tells_record(rest[i - 1], schema.keys, rows[now.len() + (i - 1)]));
            }
        }
        (all, end)
    } else {
        assert(b.subrange(p, r + 1) =~= b.subrange(p, r) + seq![']']);
        assert(rows.take(done.len() as int) =~= done);
        (seq![one], r + 1)
    }
}

/// Nothing is read but what was written: a text from which objects are read starts with
/// a file that tells these objects. So a name that is not known, a name that is missing,
/// an empty object, or anything else in a place where it does not belong is refused.
pub proof fn only_written_files_are_read(
    b: Seq<char>,
    schema: Schema,
    rows: Seq<Seq<Seq<char>>>,
)
    requires
        records(b, schema) == Ok::<Seq<Seq<Seq<char>>>, Seq<char>>(rows),
    ensures
        exists|file: WrittenFile|
            #![trigger tells_file(file, schema.keys, rows)]
            tells_file(file, schema.keys, rows) && file_json(file).is_prefix_of(b),
{
    lemma_blanks_before(b, 0);
    let a = skip_blank(b, 0);
    lemma_blanks_before(b, a + 1);
    let c = skip_blank(b, a + 1);
    let before = b.subrange(0, a);
    if c < b.len() && b[c] == ']' {
        let file = WrittenFile {
            records: Seq::empty(),
            before,
            inside: b.subrange(a + 1, c),
        };
        assert(b.subrange(0, c + 1) =~= before + (seq!['['] + (b.subrange(a + 1, c) + seq![']'])));
        assert(file_json(file).is_prefix_of(b));
        assert(tells_file(file, schema.keys, rows));
    } else {
        let (read, end) = lemma_rows_were_written(b, c, schema, Seq::empty());
        let space = b.subrange(a + 1, c);
        let first = WrittenRecord { before: space + read[0].before, ..read[0] };
        let all = read.update(0, first);
        let file = WrittenFile { records: all, before, inside: Seq::empty() };
        assert(tells_record(read[0], schema.keys, rows[0]));
        assert(are_blanks(first.before));
        lemma_first_record_moved(read, space);
        assert(b.subrange(0, end) =~= before + (seq!['['] + (space + b.subrange(c, end))));
        assert(file_json(file) == b.subrange(0, end));
        assert(file_json(file).is_prefix_of(b));
        assert forall|i: int| 0 <= i < rows.len() implies tells_record(
            #[trigger] all[i],
            schema.keys,
            rows[i],
        ) by {
            assert(tells_record(read[i], schema.keys, rows[i]));
        }
        assert(tells_file(file, schema.keys, rows));
    }
}

proof fn lemma_first_record_moved(records: Seq<WrittenRecord>, w: Seq<char>)
    requires
        records.len() > 0,
    ensures
        rows_json(
            records.update(0, WrittenRecord { before: w + records[0].before, ..records[0] }),
            0,
        ) == w + rows_json(records, 0),
{
    let r = records[0];
    let g = WrittenRecord { before: w + r.before, ..r };
    let moved = records.update(0, g);
    let body = seq!['{'] + (fields_json(r.fields, 0) + r.behind);
    assert(record_json(g) =~= w + record_json(r)) by {
        assert((w + r.before) + body =~= w + (r.before + body));
    }
    if records.len() > 1 {
        lemma_rows_behind_alike(records, moved, 1);
        let rest = seq![','] + rows_json(records, 1);
        assert((w + record_json(r)) + rest =~= w + (record_json(r) + rest));
    } else {
        assert((w + record_json(r)) + seq![']'] =~= w + (record_json(r) + seq![']']));
    }
}

proof fn lemma_rows_behind_alike(a: Seq<WrittenRecord>, b: Seq<WrittenRecord>, from: int)
    requires
        a.len() == b.len(),
        0 <= from < a.len(),
        forall|i: int| from <= i < a.len() ==> a[i] == b[i],
    ensures
        rows_json(a, from) == rows_json(b, from),
    decreases a.len() - from,
{
    if from + 1 < a.len() {
        lemma_rows_behind_alike(a, b, from + 1);
    }
}

} // verus!
