//! The parser of `.drv` files (the ATerm `Derive(...)` format).
use vstd::prelude::*;
use crate::text::{
    chars_of, owned, push_char, push_str, string_of,
};
use crate::parser::derivation::DerivationParseErrorModel as PErr;
use crate::types::{
    parse_derivation_path, parse_output_name, parse_store_path, Derivation, OutputName,
    OutputNameModel, StorePath,
};

verus! {

#[derive(Debug)]
pub enum DerivationParseError {
    UnexpectedToken(String),
    UnexpectedEof,
    InvalidStorePath(String),
}

pub enum DerivationParseErrorModel {
    UnexpectedToken(Seq<char>),
    UnexpectedEof,
    InvalidStorePath(Seq<char>),
}

impl View for DerivationParseError {
    type V = DerivationParseErrorModel;

    open spec fn view(&self) -> DerivationParseErrorModel {
        match self {
            DerivationParseError::UnexpectedToken(m) => DerivationParseErrorModel::UnexpectedToken(m@),
            DerivationParseError::UnexpectedEof => DerivationParseErrorModel::UnexpectedEof,
            DerivationParseError::InvalidStorePath(m) => DerivationParseErrorModel::InvalidStorePath(m@),
        }
    }
}

// ---------------------------------------------------------------------
// The lexer, as a specification over characters and positions
// ---------------------------------------------------------------------

pub open spec fn is_ascii_ws(c: char) -> bool {
    c == ' ' || c == '\t' || c == '\n' || c == '\x0C' || c == '\r'
}

/// The first position at or after `p` that is not ASCII white space.
pub open spec fn ws_end(s: Seq<char>, p: int) -> int
    decreases s.len() - p,
{
    if 0 <= p < s.len() && is_ascii_ws(s[p]) {
        ws_end(s, p + 1)
    } else {
        p
    }
}

/// The next character after white space, and the position before it.
pub open spec fn lex_peek(s: Seq<char>, p: int) -> (Option<char>, int) {
    let q = ws_end(s, p);
    if 0 <= q < s.len() {
        (Some(s[q]), q)
    } else {
        (None, q)
    }
}

/// The next character after white space, and the position after it.
pub open spec fn lex_next(s: Seq<char>, p: int) -> (Option<char>, int) {
    let q = ws_end(s, p);
    if 0 <= q < s.len() {
        (Some(s[q]), q + 1)
    } else {
        (None, q)
    }
}

/// The character shown for an unexpected one: its first UTF-8 byte read as
/// a Latin-1 character.
pub open spec fn first_byte_char(c: char) -> char {
    let u = c as u32;
    if u < 0x80 {
        c
    } else if u < 0x800 {
        (0xC0 + u / 64) as char
    } else if u < 0x10000 {
        (0xE0 + u / 4096) as char
    } else {
        (0xF0 + u / 262144) as char
    }
}

pub open spec fn expected_message(e: char, got: char) -> Seq<char> {
    "expected '"@ + seq![e] + "', got '"@ + seq![first_byte_char(got)] + "'"@
}

/// Reads the character `e` after white space.
pub open spec fn lex_expect(s: Seq<char>, p: int, e: char) -> Result<int, PErr> {
    match lex_next(s, p) {
        (None, _) => Err(PErr::UnexpectedEof),
        (Some(c), q) => if c == e {
            Ok(q)
        } else {
            Err(PErr::UnexpectedToken(expected_message(e, c)))
        },
    }
}

pub open spec fn unescape(c: char) -> char {
    if c == 'n' {
        '\n'
    } else if c == 'r' {
        '\r'
    } else if c == 't' {
        '\t'
    } else {
        c
    }
}

/// The rest of a string literal from `i`, its text so far being `acc`.
pub open spec fn string_body(s: Seq<char>, i: int, acc: Seq<char>, escaped: bool) -> Result<(Seq<char>, int), PErr>
    decreases s.len() - i,
{
    if i < 0 || i >= s.len() {
        Err(PErr::UnexpectedEof)
    } else {
        let c = s[i];
        if escaped {
            string_body(s, i + 1, acc.push(unescape(c)), false)
        } else if c == '\\' {
            string_body(s, i + 1, acc, true)
        } else if c == '"' {
            Ok((acc, i + 1))
        } else {
            string_body(s, i + 1, acc.push(c), false)
        }
    }
}

/// A string literal after white space, with `\n`, `\r`, `\t` and other
/// backslash escapes resolved.
pub open spec fn lex_string(s: Seq<char>, p: int) -> Result<(Seq<char>, int), PErr> {
    match lex_expect(s, p, '"') {
        Err(e) => Err(e),
        Ok(q) => string_body(s, q, Seq::empty(), false),
    }
}

/// The end of a string literal's body from `i`.
pub open spec fn skip_body(s: Seq<char>, i: int) -> Result<int, PErr>
    decreases s.len() - i,
{
    if i < 0 || i >= s.len() {
        Err(PErr::UnexpectedEof)
    } else if s[i] == '"' {
        Ok(i + 1)
    } else if s[i] == '\\' {
        if i + 1 >= s.len() {
            Err(PErr::UnexpectedEof)
        } else {
            skip_body(s, i + 2)
        }
    } else {
        skip_body(s, i + 1)
    }
}

/// A string literal after white space, passed over.
pub open spec fn lex_skip_string(s: Seq<char>, p: int) -> Result<int, PErr> {
    match lex_expect(s, p, '"') {
        Err(e) => Err(e),
        Ok(q) => skip_body(s, q),
    }
}

pub open spec fn is_ident_char(c: char) -> bool {
    crate::text::is_ascii_alphanumeric(c) || c == '_'
}

pub open spec fn ident_end(s: Seq<char>, p: int) -> int
    decreases s.len() - p,
{
    if 0 <= p < s.len() && is_ident_char(s[p]) {
        ident_end(s, p + 1)
    } else {
        p
    }
}

/// An identifier (ASCII letters, digits, `_`) after white space.
pub open spec fn lex_ident(s: Seq<char>, p: int) -> Result<(Seq<char>, int), PErr> {
    let q = ws_end(s, p);
    let e = ident_end(s, q);
    if e == q {
        Err(PErr::UnexpectedToken("expected identifier"@))
    } else {
        Ok((s.subrange(q, e), e))
    }
}

// ---------------------------------------------------------------------
// The grammar
// ---------------------------------------------------------------------

/// Items separated by commas, from `p`, each read by `item`.
pub open spec fn list_items<A>(s: Seq<char>, p: int, item: spec_fn(int) -> Result<(A, int), PErr>) -> Result<(Seq<A>, int), PErr>
    decreases s.len() - p,
{
    if p < 0 || p > s.len() {
        Err(PErr::UnexpectedEof)
    } else {
        match item(p) {
            Err(e) => Err(e),
            Ok((a, q)) => {
                let (c, q2) = lex_peek(s, q);
                if c == Some(',') && p < q2 + 1 <= s.len() {
                    match list_items(s, q2 + 1, item) {
                        Err(e) => Err(e),
                        Ok((rest, r)) => Ok((seq![a] + rest, r)),
                    }
                } else {
                    Ok((seq![a], q2))
                }
            },
        }
    }
}

/// A bracketed, comma-separated list: `[` items `]`.
pub open spec fn lex_list<A>(s: Seq<char>, p: int, item: spec_fn(int) -> Result<(A, int), PErr>) -> Result<(Seq<A>, int), PErr> {
    match lex_expect(s, p, '[') {
        Err(e) => Err(e),
        Ok(q) => {
            let (c, q1) = lex_peek(s, q);
            if c == Some(']') {
                match lex_expect(s, q1, ']') {
                    Err(e) => Err(e),
                    Ok(r) => Ok((Seq::empty(), r)),
                }
            } else {
                match list_items(s, q1, item) {
                    Err(e) => Err(e),
                    Ok((items, r)) => match lex_expect(s, r, ']') {
                        Err(e) => Err(e),
                        Ok(r2) => Ok((items, r2)),
                    },
                }
            }
        },
    }
}

/// `(name, path, hashAlgo, hash)`: the output's name and path.
pub open spec fn output_item(s: Seq<char>, p: int) -> Result<((Seq<char>, Seq<char>), int), PErr> {
    match lex_expect(s, p, '(') {
        Err(e) => Err(e),
        Ok(p1) => match lex_string(s, p1) {
            Err(e) => Err(e),
            Ok((name, p2)) => match lex_expect(s, p2, ',') {
                Err(e) => Err(e),
                Ok(p3) => match lex_string(s, p3) {
                    Err(e) => Err(e),
                    Ok((path, p4)) => match lex_expect(s, p4, ',') {
                        Err(e) => Err(e),
                        Ok(p5) => match lex_skip_string(s, p5) {
                            Err(e) => Err(e),
                            Ok(p6) => match lex_expect(s, p6, ',') {
                                Err(e) => Err(e),
                                Ok(p7) => match lex_skip_string(s, p7) {
                                    Err(e) => Err(e),
                                    Ok(p8) => match lex_expect(s, p8, ')') {
                                        Err(e) => Err(e),
                                        Ok(p9) => Ok(((name, path), p9)),
                                    },
                                },
                            },
                        },
                    },
                },
            },
        },
    }
}

pub open spec fn output_item_fn(s: Seq<char>) -> spec_fn(int) -> Result<((Seq<char>, Seq<char>), int), PErr> {
    |q: int| output_item(s, q)
}

pub open spec fn string_item_fn(s: Seq<char>) -> spec_fn(int) -> Result<(Seq<char>, int), PErr> {
    |q: int| lex_string(s, q)
}

/// `(drvPath, [outputName, ...])`.
pub open spec fn input_drv_item(s: Seq<char>, p: int) -> Result<((Seq<char>, Seq<Seq<char>>), int), PErr> {
    match lex_expect(s, p, '(') {
        Err(e) => Err(e),
        Ok(p1) => match lex_string(s, p1) {
            Err(e) => Err(e),
            Ok((path, p2)) => match lex_expect(s, p2, ',') {
                Err(e) => Err(e),
                Ok(p3) => match lex_list(s, p3, string_item_fn(s)) {
                    Err(e) => Err(e),
                    Ok((names, p4)) => match lex_expect(s, p4, ')') {
                        Err(e) => Err(e),
                        Ok(p5) => Ok(((path, names), p5)),
                    },
                },
            },
        },
    }
}

/// A string passed over, as a list item.
pub open spec fn skipped_item(s: Seq<char>, p: int) -> Result<((), int), PErr> {
    match lex_skip_string(s, p) {
        Err(e) => Err(e),
        Ok(q) => Ok(((), q)),
    }
}

pub open spec fn input_drv_item_fn(s: Seq<char>) -> spec_fn(int) -> Result<((Seq<char>, Seq<Seq<char>>), int), PErr> {
    |q: int| input_drv_item(s, q)
}

pub open spec fn skipped_item_fn(s: Seq<char>) -> spec_fn(int) -> Result<((), int), PErr> {
    |q: int| skipped_item(s, q)
}

/// `(key, value)`: the value where the key is `pname`, else passed over.
pub open spec fn env_item(s: Seq<char>, p: int) -> Result<(Option<Seq<char>>, int), PErr> {
    match lex_expect(s, p, '(') {
        Err(e) => Err(e),
        Ok(p1) => match lex_string(s, p1) {
            Err(e) => Err(e),
            Ok((key, p2)) => match lex_expect(s, p2, ',') {
                Err(e) => Err(e),
                Ok(p3) => {
                    let v: Result<(Option<Seq<char>>, int), PErr> = if key == "pname"@ {
                        match lex_string(s, p3) {
                            Err(e) => Err(e),
                            Ok((value, q)) => Ok((Some(value), q)),
                        }
                    } else {
                        match lex_skip_string(s, p3) {
                            Err(e) => Err(e),
                            Ok(q) => Ok((None, q)),
                        }
                    };
                    match v {
                        Err(e) => Err(e),
                        Ok((value, p4)) => match lex_expect(s, p4, ')') {
                            Err(e) => Err(e),
                            Ok(p5) => Ok((value, p5)),
                        },
                    }
                },
            },
        },
    }
}

pub open spec fn env_item_fn(s: Seq<char>) -> spec_fn(int) -> Result<(Option<Seq<char>>, int), PErr> {
    |q: int| env_item(s, q)
}

/// The first index of a key in an association list.
pub open spec fn key_index<K, V>(v: Seq<(K, V)>, k: K, i: int) -> Option<int>
    decreases v.len() - i,
{
    if i < 0 || i >= v.len() {
        None
    } else if v[i].0 == k {
        Some(i)
    } else {
        key_index(v, k, i + 1)
    }
}

/// An association list with `k` mapped to `val`: the entry for `k` replaced
/// where there is one, else a new entry at the end (what inserting into a
/// map does).
pub open spec fn assoc_insert<K, V>(v: Seq<(K, V)>, k: K, val: V) -> Seq<(K, V)> {
    match key_index(v, k, 0) {
        Some(i) => v.update(i, (k, val)),
        None => v.push((k, val)),
    }
}

/// The outputs whose paths parse, by output name.
pub open spec fn outputs_of(items: Seq<(Seq<char>, Seq<char>)>) -> Seq<(OutputNameModel, (Seq<char>, Seq<char>))>
    decreases items.len(),
{
    if items.len() == 0 {
        Seq::empty()
    } else {
        let prev = outputs_of(items.drop_last());
        let (name, path) = items.last();
        match parse_store_path(path) {
            Some(sp) => assoc_insert(prev, parse_output_name(name), sp),
            None => prev,
        }
    }
}

/// The input derivations whose paths parse, with their output names.
pub open spec fn input_drvs_of(items: Seq<(Seq<char>, Seq<Seq<char>>)>) -> Seq<((Seq<char>, Seq<char>), Seq<OutputNameModel>)>
    decreases items.len(),
{
    if items.len() == 0 {
        Seq::empty()
    } else {
        let prev = input_drvs_of(items.drop_last());
        let (path, names) = items.last();
        match parse_derivation_path(path) {
            Some(d) => assoc_insert(prev, d, names.map_values(|n: Seq<char>| parse_output_name(n))),
            None => prev,
        }
    }
}

/// The input sources whose paths parse, in order.
pub open spec fn input_srcs_of(items: Seq<Seq<char>>) -> Seq<(Seq<char>, Seq<char>)>
    decreases items.len(),
{
    if items.len() == 0 {
        Seq::empty()
    } else {
        let prev = input_srcs_of(items.drop_last());
        match parse_store_path(items.last()) {
            Some(sp) => prev.push(sp),
            None => prev,
        }
    }
}

/// The last `pname` value among the environment entries.
pub open spec fn pname_of(items: Seq<Option<Seq<char>>>) -> Option<Seq<char>>
    decreases items.len(),
{
    if items.len() == 0 {
        None
    } else {
        match items.last() {
            Some(v) => Some(v),
            None => pname_of(items.drop_last()),
        }
    }
}

/// What a derivation file says, as far as it is read.
pub struct DerivationModel {
    pub outputs: Seq<(OutputNameModel, (Seq<char>, Seq<char>))>,
    pub input_drvs: Seq<((Seq<char>, Seq<char>), Seq<OutputNameModel>)>,
    pub input_srcs: Seq<(Seq<char>, Seq<char>)>,
    pub platform: Seq<char>,
    pub pname: Option<Seq<char>>,
}

/// A derivation file: `Derive(outputs, inputDrvs, inputSrcs, platform,
/// builder, args, env)`; of the environment only `pname` is read.
pub open spec fn parse_derivation_text(s: Seq<char>) -> Result<DerivationModel, PErr> {
    match lex_ident(s, 0) {
        Err(e) => Err(e),
        Ok((ident, p0)) => if ident != "Derive"@ {
            Err(PErr::UnexpectedToken("expected Derive, got "@ + ident))
        } else {
            match lex_expect(s, p0, '(') {
                Err(e) => Err(e),
                Ok(p1) => match lex_list(s, p1, output_item_fn(s)) {
                    Err(e) => Err(e),
                    Ok((outs, p2)) => match lex_expect(s, p2, ',') {
                        Err(e) => Err(e),
                        Ok(p3) => match lex_list(s, p3, input_drv_item_fn(s)) {
                            Err(e) => Err(e),
                            Ok((drvs, p4)) => match lex_expect(s, p4, ',') {
                                Err(e) => Err(e),
                                Ok(p5) => match lex_list(s, p5, string_item_fn(s)) {
                                    Err(e) => Err(e),
                                    Ok((srcs, p6)) => match lex_expect(s, p6, ',') {
                                        Err(e) => Err(e),
                                        Ok(p7) => match lex_string(s, p7) {
                                            Err(e) => Err(e),
                                            Ok((platform, p8)) => match lex_expect(s, p8, ',') {
                                                Err(e) => Err(e),
                                                Ok(p9) => match lex_skip_string(s, p9) {
                                                    Err(e) => Err(e),
                                                    Ok(p10) => match lex_expect(s, p10, ',') {
                                                        Err(e) => Err(e),
                                                        Ok(p11) => match lex_list(s, p11, skipped_item_fn(s)) {
                                                            Err(e) => Err(e),
                                                            Ok((_args, p12)) => match lex_expect(s, p12, ',') {
                                                                Err(e) => Err(e),
                                                                Ok(p13) => match lex_list(s, p13, env_item_fn(s)) {
                                                                    Err(e) => Err(e),
                                                                    Ok((env, p14)) => match lex_expect(s, p14, ')') {
                                                                        Err(e) => Err(e),
                                                                        Ok(_) => Ok(DerivationModel {
                                                                            outputs: outputs_of(outs),
                                                                            input_drvs: input_drvs_of(drvs),
                                                                            input_srcs: input_srcs_of(srcs),
                                                                            platform,
                                                                            pname: pname_of(env),
                                                                        }),
                                                                    },
                                                                },
                                                            },
                                                        },
                                                    },
                                                },
                                            },
                                        },
                                    },
                                },
                            },
                        },
                    },
                },
            }
        },
    }
}

// ---------------------------------------------------------------------
// The lexer
// ---------------------------------------------------------------------

proof fn lemma_ws_end(s: Seq<char>, p: int)
    requires
        0 <= p <= s.len(),
    ensures
        p <= ws_end(s, p) <= s.len(),
    decreases s.len() - p,
{
    if p < s.len() && is_ascii_ws(s[p]) {
        lemma_ws_end(s, p + 1);
    }
}

struct Lexer {
    input: Vec<char>,
    pos: usize,
}

/// The lexer read `expected` and `r` reports how that went.
pub open spec fn unit_result_matches(r: Result<(), DerivationParseError>, spec: Result<int, PErr>, pos: int) -> bool {
    match spec {
        Ok(q) => r is Ok && pos == q,
        Err(e) => r matches Err(x) && x@ == e,
    }
}

pub open spec fn string_result_matches(r: Result<String, DerivationParseError>, spec: Result<(Seq<char>, int), PErr>, pos: int) -> bool {
    match spec {
        Ok((v, q)) => r matches Ok(x) && x@ == v && pos == q,
        Err(e) => r matches Err(x) && x@ == e,
    }
}

fn is_ascii_ws_char(c: char) -> (b: bool)
    ensures
        b == is_ascii_ws(c),
{
    c == ' ' || c == '\t' || c == '\n' || c == '\x0C' || c == '\r'
}

fn first_byte_char_exec(c: char) -> (r: char)
    ensures
        r == first_byte_char(c),
{
    let u = c as u32;
    if u < 0x80 {
        c
    } else if u < 0x800 {
        ((0xC0 + u / 64) as u8) as char
    } else if u < 0x10000 {
        ((0xE0 + u / 4096) as u8) as char
    } else {
        ((0xF0 + u / 262144) as u8) as char
    }
}

impl Lexer {
    spec fn wf(&self) -> bool {
        self.pos <= self.input@.len()
    }

    fn new(content: &str) -> (r: Self)
        ensures
            r.input@ == content@,
            r.pos == 0,
    {
        Lexer { input: chars_of(content), pos: 0 }
    }

    fn skip_whitespace(&mut self)
        requires
            old(self).wf(),
        ensures
            final(self).wf(),
            final(self).input == old(self).input,
            final(self).pos == ws_end(old(self).input@, old(self).pos as int),
    {
        while self.pos < self.input.len() && is_ascii_ws_char(self.input[self.pos])
            invariant
                self.wf(),
                self.input == old(self).input,
                ws_end(self.input@, old(self).pos as int) == ws_end(self.input@, self.pos as int),
            decreases self.input.len() - self.pos,
        {
            self.pos += 1;
        }
    }

    fn peek(&mut self) -> (r: Option<char>)
        requires
            old(self).wf(),
        ensures
            final(self).wf(),
            final(self).input == old(self).input,
            (r, final(self).pos as int) == lex_peek(old(self).input@, old(self).pos as int),
    {
        self.skip_whitespace();
        if self.pos < self.input.len() {
            Some(self.input[self.pos])
        } else {
            None
        }
    }

    fn next_char(&mut self) -> (r: Option<char>)
        requires
            old(self).wf(),
        ensures
            final(self).wf(),
            final(self).input == old(self).input,
            (r, final(self).pos as int) == lex_next(old(self).input@, old(self).pos as int),
    {
        self.skip_whitespace();
        if self.pos < self.input.len() {
            let b = self.input[self.pos];
            self.pos += 1;
            Some(b)
        } else {
            None
        }
    }

    fn expect(&mut self, expected: char) -> (r: Result<(), DerivationParseError>)
        requires
            old(self).wf(),
        ensures
            final(self).wf(),
            final(self).input == old(self).input,
            final(self).pos >= old(self).pos,
            r is Ok ==> final(self).pos > old(self).pos,
            unit_result_matches(r, lex_expect(old(self).input@, old(self).pos as int, expected), final(self).pos as int),
    {
        proof {
            lemma_ws_end(self.input@, self.pos as int);
        }
        let b = match self.next_char() {
            Some(b) => b,
            None => return Err(DerivationParseError::UnexpectedEof),
        };
        if b == expected {
            Ok(())
        } else {
            let mut msg = owned("expected '");
            push_char(&mut msg, expected);
            push_str(&mut msg, "', got '");
            push_char(&mut msg, first_byte_char_exec(b));
            push_str(&mut msg, "'");
            assert(msg@ =~= expected_message(expected, b));
            Err(DerivationParseError::UnexpectedToken(msg))
        }
    }

    fn parse_string(&mut self) -> (r: Result<String, DerivationParseError>)
        requires
            old(self).wf(),
        ensures
            final(self).wf(),
            final(self).input == old(self).input,
            final(self).pos >= old(self).pos,
            r is Ok ==> final(self).pos > old(self).pos,
            string_result_matches(r, lex_string(old(self).input@, old(self).pos as int), final(self).pos as int),
    {
        match self.expect('"') {
            Ok(()) => {},
            Err(e) => return Err(e),
        }
        let ghost s = self.input@;
        let ghost q = self.pos as int;
        assert(lex_string(old(self).input@, old(self).pos as int) == string_body(s, q, Seq::empty(), false));
        let mut result = String::new();
        let mut escaped = false;
        while self.pos < self.input.len()
            invariant
                self.wf(),
                self.input == old(self).input,
                s == self.input@,
                self.pos >= old(self).pos,
                string_body(s, q, Seq::empty(), false) == string_body(s, self.pos as int, result@, escaped),
                lex_string(old(self).input@, old(self).pos as int) == string_body(s, q, Seq::empty(), false),
            decreases self.input.len() - self.pos,
        {
            let b = self.input[self.pos];
            self.pos += 1;
            if escaped {
                let c = if b == 'n' {
                    '\n'
                } else if b == 'r' {
                    '\r'
                } else if b == 't' {
                    '\t'
                } else {
                    b
                };
                push_char(&mut result, c);
                escaped = false;
            } else if b == '\\' {
                escaped = true;
            } else if b == '"' {
                return Ok(result);
            } else {
                push_char(&mut result, b);
            }
        }
        Err(DerivationParseError::UnexpectedEof)
    }

    fn skip_string(&mut self) -> (r: Result<(), DerivationParseError>)
        requires
            old(self).wf(),
        ensures
            final(self).wf(),
            final(self).input == old(self).input,
            final(self).pos >= old(self).pos,
            r is Ok ==> final(self).pos > old(self).pos,
            unit_result_matches(r, lex_skip_string(old(self).input@, old(self).pos as int), final(self).pos as int),
    {
        match self.expect('"') {
            Ok(()) => {},
            Err(e) => return Err(e),
        }
        let ghost s = self.input@;
        let ghost q = self.pos as int;
        assert(lex_skip_string(old(self).input@, old(self).pos as int) == skip_body(s, q));
        while self.pos < self.input.len()
            invariant
                self.wf(),
                self.input == old(self).input,
                s == self.input@,
                self.pos >= old(self).pos,
                skip_body(s, q) == skip_body(s, self.pos as int),
                lex_skip_string(old(self).input@, old(self).pos as int) == skip_body(s, q),
            decreases self.input.len() - self.pos,
        {
            let b = self.input[self.pos];
            if b == '"' {
                self.pos += 1;
                return Ok(());
            } else if b == '\\' {
                if self.pos + 1 >= self.input.len() {
                    return Err(DerivationParseError::UnexpectedEof);
                }
                self.pos += 2;
            } else {
                self.pos += 1;
            }
        }
        Err(DerivationParseError::UnexpectedEof)
    }

    fn parse_ident(&mut self) -> (r: Result<String, DerivationParseError>)
        requires
            old(self).wf(),
        ensures
            final(self).wf(),
            final(self).input == old(self).input,
            string_result_matches(r, lex_ident(old(self).input@, old(self).pos as int), final(self).pos as int),
    {
        self.skip_whitespace();
        let start = self.pos;
        let ghost s = self.input@;
        while self.pos < self.input.len() && (crate::text::is_ascii_alphanumeric_char(self.input[self.pos]) || self.input[self.pos] == '_')
            invariant
                self.wf(),
                self.input == old(self).input,
                s == self.input@,
                start <= self.pos,
                ident_end(s, start as int) == ident_end(s, self.pos as int),
            decreases self.input.len() - self.pos,
        {
            self.pos += 1;
        }
        if start == self.pos {
            return Err(DerivationParseError::UnexpectedToken(owned("expected identifier")));
        }
        Ok(string_of(&self.input, start, self.pos))
    }
}


/// The closing bracket after a list's items.
pub open spec fn list_then_close<A>(s: Seq<char>, r: Result<(Seq<A>, int), PErr>) -> Result<(Seq<A>, int), PErr> {
    match r {
        Err(e) => Err(e),
        Ok((items, q)) => match lex_expect(s, q, ']') {
            Err(e) => Err(e),
            Ok(q2) => Ok((items, q2)),
        },
    }
}

proof fn lemma_prepend_assoc<A>(a: Seq<A>, b: Seq<A>, r: Result<(Seq<A>, int), PErr>)
    ensures
        prepend_items(a, prepend_items(b, r)) == prepend_items(a + b, r),
{
    match r {
        Ok((items, q)) => {
            assert(a + (b + items) =~= (a + b) + items);
        },
        Err(e) => {},
    }
}

/// The result `r` with `acc` in front of its items.
pub open spec fn prepend_items<A>(acc: Seq<A>, r: Result<(Seq<A>, int), PErr>) -> Result<(Seq<A>, int), PErr> {
    match r {
        Ok((items, q)) => Ok((acc + items, q)),
        Err(e) => Err(e),
    }
}

pub open spec fn string_views(v: Seq<String>) -> Seq<Seq<char>> {
    v.map_values(|x: String| x@)
}

pub open spec fn pair_views(v: Seq<(String, String)>) -> Seq<(Seq<char>, Seq<char>)> {
    v.map_values(|x: (String, String)| (x.0@, x.1@))
}

pub open spec fn drv_item_views(v: Seq<(String, Vec<String>)>) -> Seq<(Seq<char>, Seq<Seq<char>>)> {
    v.map_values(|x: (String, Vec<String>)| (x.0@, string_views(x.1@)))
}

pub open spec fn unit_views(v: Seq<()>) -> Seq<()> {
    v
}

pub open spec fn env_views(v: Seq<Option<String>>) -> Seq<Option<Seq<char>>> {
    v.map_values(|x: Option<String>| crate::types::opt_string_view(x))
}

fn parse_output_item(lex: &mut Lexer) -> (r: Result<(String, String), DerivationParseError>)
    requires
        old(lex).wf(),
    ensures
        final(lex).wf(),
        final(lex).input == old(lex).input,
        final(lex).pos >= old(lex).pos,
        r is Ok ==> final(lex).pos > old(lex).pos,
        match output_item(old(lex).input@, old(lex).pos as int) {
            Ok((v, q)) => r matches Ok(x) && (x.0@, x.1@) == v && final(lex).pos == q,
            Err(e) => r matches Err(x) && x@ == e,
        },
{
    match lex.expect('(') { Ok(()) => {}, Err(e) => return Err(e) }
    let name = match lex.parse_string() { Ok(v) => v, Err(e) => return Err(e) };
    match lex.expect(',') { Ok(()) => {}, Err(e) => return Err(e) }
    let path = match lex.parse_string() { Ok(v) => v, Err(e) => return Err(e) };
    match lex.expect(',') { Ok(()) => {}, Err(e) => return Err(e) }
    match lex.skip_string() { Ok(()) => {}, Err(e) => return Err(e) }
    match lex.expect(',') { Ok(()) => {}, Err(e) => return Err(e) }
    match lex.skip_string() { Ok(()) => {}, Err(e) => return Err(e) }
    match lex.expect(')') { Ok(()) => {}, Err(e) => return Err(e) }
    Ok((name, path))
}

fn parse_string_item(lex: &mut Lexer) -> (r: Result<String, DerivationParseError>)
    requires
        old(lex).wf(),
    ensures
        final(lex).wf(),
        final(lex).input == old(lex).input,
        final(lex).pos >= old(lex).pos,
        r is Ok ==> final(lex).pos > old(lex).pos,
        string_result_matches(r, lex_string(old(lex).input@, old(lex).pos as int), final(lex).pos as int),
{
    lex.parse_string()
}

fn parse_skipped_item(lex: &mut Lexer) -> (r: Result<(), DerivationParseError>)
    requires
        old(lex).wf(),
    ensures
        final(lex).wf(),
        final(lex).input == old(lex).input,
        final(lex).pos >= old(lex).pos,
        r is Ok ==> final(lex).pos > old(lex).pos,
        match skipped_item(old(lex).input@, old(lex).pos as int) {
            Ok((v, q)) => r is Ok && final(lex).pos == q,
            Err(e) => r matches Err(x) && x@ == e,
        },
{
    lex.skip_string()
}

fn parse_env_item(lex: &mut Lexer) -> (r: Result<Option<String>, DerivationParseError>)
    requires
        old(lex).wf(),
    ensures
        final(lex).wf(),
        final(lex).input == old(lex).input,
        final(lex).pos >= old(lex).pos,
        r is Ok ==> final(lex).pos > old(lex).pos,
        match env_item(old(lex).input@, old(lex).pos as int) {
            Ok((v, q)) => r matches Ok(x) && crate::types::opt_string_view(x) == v && final(lex).pos == q,
            Err(e) => r matches Err(x) && x@ == e,
        },
{
    match lex.expect('(') { Ok(()) => {}, Err(e) => return Err(e) }
    let key = match lex.parse_string() { Ok(v) => v, Err(e) => return Err(e) };
    match lex.expect(',') { Ok(()) => {}, Err(e) => return Err(e) }
    let value = if crate::text::str_eq(key.as_str(), "pname") {
        match lex.parse_string() {
            Ok(v) => Some(v),
            Err(e) => return Err(e),
        }
    } else {
        match lex.skip_string() {
            Ok(()) => None,
            Err(e) => return Err(e),
        }
    };
    match lex.expect(')') { Ok(()) => {}, Err(e) => return Err(e) }
    Ok(value)
}

/// `[` outputs `]`.
fn parse_output_list(lex: &mut Lexer) -> (r: Result<Vec<(String, String)>, DerivationParseError>)
    requires
        old(lex).wf(),
    ensures
        final(lex).wf(),
        final(lex).input == old(lex).input,
        final(lex).pos >= old(lex).pos,
        match lex_list(old(lex).input@, old(lex).pos as int, output_item_fn(old(lex).input@)) {
            Ok((items, q)) => r matches Ok(v) && pair_views(v@) == items && final(lex).pos == q,
            Err(e) => r matches Err(x) && x@ == e,
        },
{
    let ghost s = lex.input@;
    let ghost f = output_item_fn(s);
    match lex.expect('[') {
        Ok(()) => {},
        Err(e) => return Err(e),
    }
    let ghost q = lex.pos as int;
    proof {
        lemma_ws_end(s, q);
    }
    let c = lex.peek();
    let mut acc: Vec<(String, String)> = Vec::new();
    if c != Some(']') {
        let ghost start = lex.pos as int;
        loop
            invariant_except_break
                lex.wf(),
                lex.input@ == s,
                f == output_item_fn(s),
                lex.input == old(lex).input,
                old(lex).pos <= start <= lex.pos,
                lex_list(s, old(lex).pos as int, f) == list_then_close(s, list_items(s, start, f)),
                list_items(s, start, f) == prepend_items(pair_views(acc@), list_items(s, lex.pos as int, f)),
            ensures
                lex.wf(),
                lex.input@ == s,
                f == output_item_fn(s),
                lex.input == old(lex).input,
                old(lex).pos <= start <= lex.pos,
                lex_list(s, old(lex).pos as int, f) == list_then_close(s, list_items(s, start, f)),
                list_items(s, start, f) == Ok::<(Seq<_>, int), PErr>((pair_views(acc@), lex.pos as int)),
            decreases lex.input@.len() - lex.pos,
        {
            let ghost p = lex.pos as int;
            let ghost prev = acc@;
            let item = match parse_output_item(lex) {
                Ok(v) => v,
                Err(e) => return Err(e),
            };
            assert(f(p) == output_item(s, p));
            assert(pair_views(seq![item]) =~= seq![f(p)->Ok_0.0]);
            acc.push(item);
            assert(pair_views(acc@) == pair_views(prev).push(pair_views(seq![item])[0]));
            proof {
                lemma_ws_end(s, lex.pos as int);
            }
            let c2 = lex.peek();
            if c2 == Some(',') {
                lex.next_char();
                proof {
                    lemma_prepend_assoc(pair_views(prev), pair_views(seq![item]), list_items(s, lex.pos as int, f));
                }
                assert(pair_views(acc@) =~= pair_views(prev) + pair_views(seq![item]));
            } else {
                assert(pair_views(acc@) =~= pair_views(prev) + pair_views(seq![item]));
                assert(list_items(s, p, f) == Ok::<(Seq<_>, int), PErr>((pair_views(seq![item]), lex.pos as int)));
                break;
            }
        }
    }
    if c == Some(']') {
        assert(pair_views(acc@) =~= Seq::empty());
    }
    match lex.expect(']') {
        Ok(()) => {},
        Err(e) => return Err(e),
    }
    proof {
        reveal_strlit("");
    }
    Ok(acc)
}

/// `[` strings `]`.
fn parse_string_list(lex: &mut Lexer) -> (r: Result<Vec<String>, DerivationParseError>)
    requires
        old(lex).wf(),
    ensures
        final(lex).wf(),
        final(lex).input == old(lex).input,
        final(lex).pos >= old(lex).pos,
        match lex_list(old(lex).input@, old(lex).pos as int, string_item_fn(old(lex).input@)) {
            Ok((items, q)) => r matches Ok(v) && string_views(v@) == items && final(lex).pos == q,
            Err(e) => r matches Err(x) && x@ == e,
        },
{
    let ghost s = lex.input@;
    let ghost f = string_item_fn(s);
    match lex.expect('[') {
        Ok(()) => {},
        Err(e) => return Err(e),
    }
    let ghost q = lex.pos as int;
    proof {
        lemma_ws_end(s, q);
    }
    let c = lex.peek();
    let mut acc: Vec<String> = Vec::new();
    if c != Some(']') {
        let ghost start = lex.pos as int;
        loop
            invariant_except_break
                lex.wf(),
                lex.input@ == s,
                f == string_item_fn(s),
                lex.input == old(lex).input,
                old(lex).pos <= start <= lex.pos,
                lex_list(s, old(lex).pos as int, f) == list_then_close(s, list_items(s, start, f)),
                list_items(s, start, f) == prepend_items(string_views(acc@), list_items(s, lex.pos as int, f)),
            ensures
                lex.wf(),
                lex.input@ == s,
                f == string_item_fn(s),
                lex.input == old(lex).input,
                old(lex).pos <= start <= lex.pos,
                lex_list(s, old(lex).pos as int, f) == list_then_close(s, list_items(s, start, f)),
                list_items(s, start, f) == Ok::<(Seq<_>, int), PErr>((string_views(acc@), lex.pos as int)),
            decreases lex.input@.len() - lex.pos,
        {
            let ghost p = lex.pos as int;
            let ghost prev = acc@;
            let item = match parse_string_item(lex) {
                Ok(v) => v,
                Err(e) => return Err(e),
            };
            assert(f(p) == lex_string(s, p));
            assert(string_views(seq![item]) =~= seq![f(p)->Ok_0.0]);
            acc.push(item);
            assert(string_views(acc@) == string_views(prev).push(string_views(seq![item])[0]));
            proof {
                lemma_ws_end(s, lex.pos as int);
            }
            let c2 = lex.peek();
            if c2 == Some(',') {
                lex.next_char();
                proof {
                    lemma_prepend_assoc(string_views(prev), string_views(seq![item]), list_items(s, lex.pos as int, f));
                }
                assert(string_views(acc@) =~= string_views(prev) + string_views(seq![item]));
            } else {
                assert(string_views(acc@) =~= string_views(prev) + string_views(seq![item]));
                assert(list_items(s, p, f) == Ok::<(Seq<_>, int), PErr>((string_views(seq![item]), lex.pos as int)));
                break;
            }
        }
    }
    if c == Some(']') {
        assert(string_views(acc@) =~= Seq::empty());
    }
    match lex.expect(']') {
        Ok(()) => {},
        Err(e) => return Err(e),
    }
    proof {
        reveal_strlit("");
    }
    Ok(acc)
}

/// `[` strings `]`, passed over.
fn parse_skipped_list(lex: &mut Lexer) -> (r: Result<Vec<()>, DerivationParseError>)
    requires
        old(lex).wf(),
    ensures
        final(lex).wf(),
        final(lex).input == old(lex).input,
        final(lex).pos >= old(lex).pos,
        match lex_list(old(lex).input@, old(lex).pos as int, skipped_item_fn(old(lex).input@)) {
            Ok((items, q)) => r matches Ok(v) && unit_views(v@) == items && final(lex).pos == q,
            Err(e) => r matches Err(x) && x@ == e,
        },
{
    let ghost s = lex.input@;
    let ghost f = skipped_item_fn(s);
    match lex.expect('[') {
        Ok(()) => {},
        Err(e) => return Err(e),
    }
    let ghost q = lex.pos as int;
    proof {
        lemma_ws_end(s, q);
    }
    let c = lex.peek();
    let mut acc: Vec<()> = Vec::new();
    if c != Some(']') {
        let ghost start = lex.pos as int;
        loop
            invariant_except_break
                lex.wf(),
                lex.input@ == s,
                f == skipped_item_fn(s),
                lex.input == old(lex).input,
                old(lex).pos <= start <= lex.pos,
                lex_list(s, old(lex).pos as int, f) == list_then_close(s, list_items(s, start, f)),
                list_items(s, start, f) == prepend_items(unit_views(acc@), list_items(s, lex.pos as int, f)),
            ensures
                lex.wf(),
                lex.input@ == s,
                f == skipped_item_fn(s),
                lex.input == old(lex).input,
                old(lex).pos <= start <= lex.pos,
                lex_list(s, old(lex).pos as int, f) == list_then_close(s, list_items(s, start, f)),
                list_items(s, start, f) == Ok::<(Seq<_>, int), PErr>((unit_views(acc@), lex.pos as int)),
            decreases lex.input@.len() - lex.pos,
        {
            let ghost p = lex.pos as int;
            let ghost prev = acc@;
            let item = match parse_skipped_item(lex) {
                Ok(v) => v,
                Err(e) => return Err(e),
            };
            assert(f(p) == skipped_item(s, p));
            assert(unit_views(seq![item]) =~= seq![f(p)->Ok_0.0]);
            acc.push(item);
            assert(unit_views(acc@) == unit_views(prev).push(unit_views(seq![item])[0]));
            proof {
                lemma_ws_end(s, lex.pos as int);
            }
            let c2 = lex.peek();
            if c2 == Some(',') {
                lex.next_char();
                proof {
                    lemma_prepend_assoc(unit_views(prev), unit_views(seq![item]), list_items(s, lex.pos as int, f));
                }
                assert(unit_views(acc@) =~= unit_views(prev) + unit_views(seq![item]));
            } else {
                assert(unit_views(acc@) =~= unit_views(prev) + unit_views(seq![item]));
                assert(list_items(s, p, f) == Ok::<(Seq<_>, int), PErr>((unit_views(seq![item]), lex.pos as int)));
                break;
            }
        }
    }
    if c == Some(']') {
        assert(unit_views(acc@) =~= Seq::empty());
    }
    match lex.expect(']') {
        Ok(()) => {},
        Err(e) => return Err(e),
    }
    proof {
        reveal_strlit("");
    }
    Ok(acc)
}

/// `[` environment entries `]`.
fn parse_env_list(lex: &mut Lexer) -> (r: Result<Vec<Option<String>>, DerivationParseError>)
    requires
        old(lex).wf(),
    ensures
        final(lex).wf(),
        final(lex).input == old(lex).input,
        final(lex).pos >= old(lex).pos,
        match lex_list(old(lex).input@, old(lex).pos as int, env_item_fn(old(lex).input@)) {
            Ok((items, q)) => r matches Ok(v) && env_views(v@) == items && final(lex).pos == q,
            Err(e) => r matches Err(x) && x@ == e,
        },
{
    let ghost s = lex.input@;
    let ghost f = env_item_fn(s);
    match lex.expect('[') {
        Ok(()) => {},
        Err(e) => return Err(e),
    }
    let ghost q = lex.pos as int;
    proof {
        lemma_ws_end(s, q);
    }
    let c = lex.peek();
    let mut acc: Vec<Option<String>> = Vec::new();
    if c != Some(']') {
        let ghost start = lex.pos as int;
        loop
            invariant_except_break
                lex.wf(),
                lex.input@ == s,
                f == env_item_fn(s),
                lex.input == old(lex).input,
                old(lex).pos <= start <= lex.pos,
                lex_list(s, old(lex).pos as int, f) == list_then_close(s, list_items(s, start, f)),
                list_items(s, start, f) == prepend_items(env_views(acc@), list_items(s, lex.pos as int, f)),
            ensures
                lex.wf(),
                lex.input@ == s,
                f == env_item_fn(s),
                lex.input == old(lex).input,
                old(lex).pos <= start <= lex.pos,
                lex_list(s, old(lex).pos as int, f) == list_then_close(s, list_items(s, start, f)),
                list_items(s, start, f) == Ok::<(Seq<_>, int), PErr>((env_views(acc@), lex.pos as int)),
            decreases lex.input@.len() - lex.pos,
        {
            let ghost p = lex.pos as int;
            let ghost prev = acc@;
            let item = match parse_env_item(lex) {
                Ok(v) => v,
                Err(e) => return Err(e),
            };
            assert(f(p) == env_item(s, p));
            assert(env_views(seq![item]) =~= seq![f(p)->Ok_0.0]);
            acc.push(item);
            assert(env_views(acc@) == env_views(prev).push(env_views(seq![item])[0]));
            proof {
                lemma_ws_end(s, lex.pos as int);
            }
            let c2 = lex.peek();
            if c2 == Some(',') {
                lex.next_char();
                proof {
                    lemma_prepend_assoc(env_views(prev), env_views(seq![item]), list_items(s, lex.pos as int, f));
                }
                assert(env_views(acc@) =~= env_views(prev) + env_views(seq![item]));
            } else {
                assert(env_views(acc@) =~= env_views(prev) + env_views(seq![item]));
                assert(list_items(s, p, f) == Ok::<(Seq<_>, int), PErr>((env_views(seq![item]), lex.pos as int)));
                break;
            }
        }
    }
    if c == Some(']') {
        assert(env_views(acc@) =~= Seq::empty());
    }
    match lex.expect(']') {
        Ok(()) => {},
        Err(e) => return Err(e),
    }
    proof {
        reveal_strlit("");
    }
    Ok(acc)
}

fn parse_input_drv_item(lex: &mut Lexer) -> (r: Result<(String, Vec<String>), DerivationParseError>)
    requires
        old(lex).wf(),
    ensures
        final(lex).wf(),
        final(lex).input == old(lex).input,
        final(lex).pos >= old(lex).pos,
        r is Ok ==> final(lex).pos > old(lex).pos,
        match input_drv_item(old(lex).input@, old(lex).pos as int) {
            Ok((v, q)) => r matches Ok(x) && (x.0@, string_views(x.1@)) == v && final(lex).pos == q,
            Err(e) => r matches Err(x) && x@ == e,
        },
{
    match lex.expect('(') { Ok(()) => {}, Err(e) => return Err(e) }
    let path = match lex.parse_string() { Ok(v) => v, Err(e) => return Err(e) };
    match lex.expect(',') { Ok(()) => {}, Err(e) => return Err(e) }
    let names = match parse_string_list(lex) { Ok(v) => v, Err(e) => return Err(e) };
    match lex.expect(')') { Ok(()) => {}, Err(e) => return Err(e) }
    Ok((path, names))
}

/// `[` input derivations `]`.
fn parse_input_drv_list(lex: &mut Lexer) -> (r: Result<Vec<(String, Vec<String>)>, DerivationParseError>)
    requires
        old(lex).wf(),
    ensures
        final(lex).wf(),
        final(lex).input == old(lex).input,
        final(lex).pos >= old(lex).pos,
        match lex_list(old(lex).input@, old(lex).pos as int, input_drv_item_fn(old(lex).input@)) {
            Ok((items, q)) => r matches Ok(v) && drv_item_views(v@) == items && final(lex).pos == q,
            Err(e) => r matches Err(x) && x@ == e,
        },
{
    let ghost s = lex.input@;
    let ghost f = input_drv_item_fn(s);
    match lex.expect('[') {
        Ok(()) => {},
        Err(e) => return Err(e),
    }
    let ghost q = lex.pos as int;
    proof {
        lemma_ws_end(s, q);
    }
    let c = lex.peek();
    let mut acc: Vec<(String, Vec<String>)> = Vec::new();
    if c != Some(']') {
        let ghost start = lex.pos as int;
        loop
            invariant_except_break
                lex.wf(),
                lex.input@ == s,
                f == input_drv_item_fn(s),
                lex.input == old(lex).input,
                old(lex).pos <= start <= lex.pos,
                lex_list(s, old(lex).pos as int, f) == list_then_close(s, list_items(s, start, f)),
                list_items(s, start, f) == prepend_items(drv_item_views(acc@), list_items(s, lex.pos as int, f)),
            ensures
                lex.wf(),
                lex.input@ == s,
                f == input_drv_item_fn(s),
                lex.input == old(lex).input,
                old(lex).pos <= start <= lex.pos,
                lex_list(s, old(lex).pos as int, f) == list_then_close(s, list_items(s, start, f)),
                list_items(s, start, f) == Ok::<(Seq<_>, int), PErr>((drv_item_views(acc@), lex.pos as int)),
            decreases lex.input@.len() - lex.pos,
        {
            let ghost p = lex.pos as int;
            let ghost prev = acc@;
            let item = match parse_input_drv_item(lex) {
                Ok(v) => v,
                Err(e) => return Err(e),
            };
            assert(f(p) == input_drv_item(s, p));
            assert(drv_item_views(seq![item]) =~= seq![f(p)->Ok_0.0]);
            acc.push(item);
            assert(drv_item_views(acc@) == drv_item_views(prev).push(drv_item_views(seq![item])[0]));
            proof {
                lemma_ws_end(s, lex.pos as int);
            }
            let c2 = lex.peek();
            if c2 == Some(',') {
                lex.next_char();
                proof {
                    lemma_prepend_assoc(drv_item_views(prev), drv_item_views(seq![item]), list_items(s, lex.pos as int, f));
                }
                assert(drv_item_views(acc@) =~= drv_item_views(prev) + drv_item_views(seq![item]));
            } else {
                assert(drv_item_views(acc@) =~= drv_item_views(prev) + drv_item_views(seq![item]));
                assert(list_items(s, p, f) == Ok::<(Seq<_>, int), PErr>((drv_item_views(seq![item]), lex.pos as int)));
                break;
            }
        }
    }
    if c == Some(']') {
        assert(drv_item_views(acc@) =~= Seq::empty());
    }
    match lex.expect(']') {
        Ok(()) => {},
        Err(e) => return Err(e),
    }
    proof {
        reveal_strlit("");
    }
    Ok(acc)
}

// ---------------------------------------------------------------------
// The parsed derivation
// ---------------------------------------------------------------------

/// What a derivation file says: its outputs by name, its input derivations
/// with the outputs used of each, its input sources, platform and `pname`.
/// Each name occurs once among the outputs, and each derivation once among
/// the inputs. Builder, arguments and environment are not kept.
#[derive(Clone, Debug)]
pub struct ParsedDerivation {
    pub outputs: Vec<(OutputName, StorePath)>,
    pub input_drvs: Vec<(Derivation, Vec<OutputName>)>,
    pub input_srcs: Vec<StorePath>,
    pub platform: String,
    pub builder: String,
    pub args: Vec<String>,
    pub env: Vec<(String, String)>,
    pub pname: Option<String>,
}

pub open spec fn outputs_view(v: Seq<(OutputName, StorePath)>) -> Seq<(OutputNameModel, (Seq<char>, Seq<char>))> {
    v.map_values(|x: (OutputName, StorePath)| (x.0@, x.1@))
}

pub open spec fn output_names_view(v: Seq<OutputName>) -> Seq<OutputNameModel> {
    v.map_values(|o: OutputName| o@)
}

pub open spec fn input_drvs_view(v: Seq<(Derivation, Vec<OutputName>)>) -> Seq<((Seq<char>, Seq<char>), Seq<OutputNameModel>)> {
    v.map_values(|x: (Derivation, Vec<OutputName>)| (x.0@, output_names_view(x.1@)))
}

pub open spec fn store_paths_view(v: Seq<StorePath>) -> Seq<(Seq<char>, Seq<char>)> {
    v.map_values(|x: StorePath| x@)
}

impl View for ParsedDerivation {
    type V = DerivationModel;

    open spec fn view(&self) -> DerivationModel {
        DerivationModel {
            outputs: outputs_view(self.outputs@),
            input_drvs: input_drvs_view(self.input_drvs@),
            input_srcs: store_paths_view(self.input_srcs@),
            platform: self.platform@,
            pname: crate::types::opt_string_view(self.pname),
        }
    }
}

fn find_output(v: &Vec<(OutputName, StorePath)>, name: &OutputName) -> (r: Option<usize>)
    ensures
        match r {
            Some(i) => i < v.len() && key_index(outputs_view(v@), name@, 0) == Some(i as int),
            None => key_index(outputs_view(v@), name@, 0) is None,
        },
{
    let mut i: usize = 0;
    while i < v.len()
        invariant
            i <= v.len(),
            key_index(outputs_view(v@), name@, 0) == key_index(outputs_view(v@), name@, i as int),
        decreases v.len() - i,
    {
        if v[i].0.same_as(name) {
            return Some(i);
        }
        i += 1;
    }
    None
}

fn same_derivation(a: &Derivation, b: &Derivation) -> (r: bool)
    ensures
        r == (a@ == b@),
{
    crate::text::str_eq(a.store_path.hash.as_str(), b.store_path.hash.as_str())
        && crate::text::str_eq(a.store_path.name.as_str(), b.store_path.name.as_str())
}

fn find_input_drv(v: &Vec<(Derivation, Vec<OutputName>)>, d: &Derivation) -> (r: Option<usize>)
    ensures
        match r {
            Some(i) => i < v.len() && key_index(input_drvs_view(v@), d@, 0) == Some(i as int),
            None => key_index(input_drvs_view(v@), d@, 0) is None,
        },
{
    let mut i: usize = 0;
    while i < v.len()
        invariant
            i <= v.len(),
            key_index(input_drvs_view(v@), d@, 0) == key_index(input_drvs_view(v@), d@, i as int),
        decreases v.len() - i,
    {
        if same_derivation(&v[i].0, d) {
            return Some(i);
        }
        i += 1;
    }
    None
}

fn build_outputs(items: &Vec<(String, String)>) -> (r: Vec<(OutputName, StorePath)>)
    ensures
        outputs_view(r@) == outputs_of(pair_views(items@)),
{
    let mut acc: Vec<(OutputName, StorePath)> = Vec::new();
    let mut k: usize = 0;
    while k < items.len()
        invariant
            k <= items.len(),
            outputs_view(acc@) == outputs_of(pair_views(items@).take(k as int)),
        decreases items.len() - k,
    {
        let ghost prev = acc@;
        let ghost pv = pair_views(items@);
        assert(pv.take(k + 1).drop_last() == pv.take(k as int));
        assert(pv.take(k + 1).last() == pv[k as int]);
        assert(pv[k as int] == (items@[k as int].0@, items@[k as int].1@));
        match StorePath::parse(items[k].1.as_str()) {
            Some(sp) => {
                let name = OutputName::parse(items[k].0.as_str());
                let ghost entry = (name@, sp@);
                match find_output(&acc, &name) {
                    Some(i) => {
                        acc.set(i, (name, sp));
                        assert(outputs_view(acc@) =~= outputs_view(prev).update(i as int, entry));
                    },
                    None => {
                        acc.push((name, sp));
                        assert(outputs_view(acc@) =~= outputs_view(prev).push(entry));
                    },
                }
                assert(outputs_view(acc@) == assoc_insert(outputs_view(prev), entry.0, entry.1));
            },
            None => {},
        }
        k += 1;
    }
    assert(pair_views(items@).take(items@.len() as int) == pair_views(items@));
    acc
}

fn parse_output_names(names: &Vec<String>) -> (r: Vec<OutputName>)
    ensures
        output_names_view(r@) == string_views(names@).map_values(|n: Seq<char>| parse_output_name(n)),
{
    let mut acc: Vec<OutputName> = Vec::new();
    let mut k: usize = 0;
    while k < names.len()
        invariant
            k <= names.len(),
            output_names_view(acc@) == string_views(names@).take(k as int).map_values(|n: Seq<char>| parse_output_name(n)),
        decreases names.len() - k,
    {
        let o = OutputName::parse(names[k].as_str());
        let ghost prev = acc@;
        acc.push(o);
        let ghost f = |n: Seq<char>| parse_output_name(n);
        assert(string_views(names@)[k as int] == names@[k as int]@);
        assert(string_views(names@).len() == names@.len());
        assert(output_names_view(prev).len() == prev.len());
        assert(prev.len() == k);
        assert(acc@.len() == k + 1);
        assert(output_names_view(acc@)[k as int] == o@);
        assert forall|j: int| 0 <= j < k + 1 implies #[trigger] output_names_view(acc@)[j]
            == string_views(names@).take(k + 1).map_values(f)[j] by {
            if j < k {
                assert(output_names_view(prev)[j] == string_views(names@).take(k as int).map_values(f)[j]);
            }
        }
        assert(output_names_view(acc@) =~= string_views(names@).take(k + 1).map_values(f));
        k += 1;
    }
    assert(string_views(names@).take(names@.len() as int) == string_views(names@));
    acc
}

fn build_input_drvs(items: &Vec<(String, Vec<String>)>) -> (r: Vec<(Derivation, Vec<OutputName>)>)
    ensures
        input_drvs_view(r@) == input_drvs_of(drv_item_views(items@)),
{
    let mut acc: Vec<(Derivation, Vec<OutputName>)> = Vec::new();
    let mut k: usize = 0;
    while k < items.len()
        invariant
            k <= items.len(),
            input_drvs_view(acc@) == input_drvs_of(drv_item_views(items@).take(k as int)),
        decreases items.len() - k,
    {
        let ghost prev = acc@;
        let ghost dvs = drv_item_views(items@);
        assert(dvs.take(k + 1).drop_last() == dvs.take(k as int));
        assert(dvs.take(k + 1).last() == dvs[k as int]);
        assert(dvs[k as int] == (items@[k as int].0@, string_views(items@[k as int].1@)));
        match Derivation::parse(items[k].0.as_str()) {
            Some(d) => {
                let outs = parse_output_names(&items[k].1);
                match find_input_drv(&acc, &d) {
                    Some(i) => {
                        let ghost dv = d@;
                        let ghost ov = output_names_view(outs@);
                        acc.set(i, (d, outs));
                        assert(input_drvs_view(acc@) =~= input_drvs_view(prev).update(i as int, (dv, ov)));
                        assert(input_drvs_view(acc@) == assoc_insert(input_drvs_view(prev), dv, ov));
                    },
                    None => {
                        let ghost dv = d@;
                        let ghost ov = output_names_view(outs@);
                        acc.push((d, outs));
                        assert(input_drvs_view(acc@) =~= input_drvs_view(prev).push((dv, ov)));
                        assert(input_drvs_view(acc@) == assoc_insert(input_drvs_view(prev), dv, ov));
                    },
                }
            },
            None => {},
        }
        k += 1;
    }
    assert(drv_item_views(items@).take(items@.len() as int) == drv_item_views(items@));
    acc
}

fn build_input_srcs(items: &Vec<String>) -> (r: Vec<StorePath>)
    ensures
        store_paths_view(r@) == input_srcs_of(string_views(items@)),
{
    let mut acc: Vec<StorePath> = Vec::new();
    let mut k: usize = 0;
    while k < items.len()
        invariant
            k <= items.len(),
            store_paths_view(acc@) == input_srcs_of(string_views(items@).take(k as int)),
        decreases items.len() - k,
    {
        let ghost prev = acc@;
        assert(string_views(items@).take(k + 1).drop_last() == string_views(items@).take(k as int));
        match StorePath::parse(items[k].as_str()) {
            Some(sp) => {
                acc.push(sp);
                assert(store_paths_view(acc@) =~= store_paths_view(prev).push(sp@));
            },
            None => {},
        }
        k += 1;
    }
    assert(string_views(items@).take(items@.len() as int) == string_views(items@));
    acc
}

fn last_pname(items: &Vec<Option<String>>) -> (r: Option<String>)
    ensures
        crate::types::opt_string_view(r) == pname_of(env_views(items@)),
{
    let mut i: usize = items.len();
    assert(env_views(items@).take(i as int) =~= env_views(items@));
    while i > 0
        invariant
            i <= items.len(),
            pname_of(env_views(items@)) == pname_of(env_views(items@).take(i as int)),
        decreases i,
    {
        i -= 1;
        assert(env_views(items@).take(i + 1).drop_last() =~= env_views(items@).take(i as int));
        match &items[i] {
            Some(v) => {
                return Some(v.clone());
            },
            None => {},
        }
    }
    None
}

/// Parses the contents of a `.drv` file.
pub fn parse_derivation_content(content: &str) -> (r: Result<ParsedDerivation, DerivationParseError>)
    ensures
        match parse_derivation_text(content@) {
            Ok(m) => r matches Ok(pd) && pd@ == m && pd.builder@.len() == 0 && pd.args@.len() == 0
                && pd.env@.len() == 0,
            Err(e) => r matches Err(x) && x@ == e,
        },
{
    let mut lexer = Lexer::new(content);
    let ident = match lexer.parse_ident() {
        Ok(v) => v,
        Err(e) => return Err(e),
    };
    if !crate::text::str_eq(ident.as_str(), "Derive") {
        let mut msg = owned("expected Derive, got ");
        push_str(&mut msg, ident.as_str());
        return Err(DerivationParseError::UnexpectedToken(msg));
    }
    match lexer.expect('(') { Ok(()) => {}, Err(e) => return Err(e) }
    let outs = match parse_output_list(&mut lexer) { Ok(v) => v, Err(e) => return Err(e) };
    match lexer.expect(',') { Ok(()) => {}, Err(e) => return Err(e) }
    let drvs = match parse_input_drv_list(&mut lexer) { Ok(v) => v, Err(e) => return Err(e) };
    match lexer.expect(',') { Ok(()) => {}, Err(e) => return Err(e) }
    let srcs = match parse_string_list(&mut lexer) { Ok(v) => v, Err(e) => return Err(e) };
    match lexer.expect(',') { Ok(()) => {}, Err(e) => return Err(e) }
    let platform = match lexer.parse_string() { Ok(v) => v, Err(e) => return Err(e) };
    match lexer.expect(',') { Ok(()) => {}, Err(e) => return Err(e) }
    match lexer.skip_string() { Ok(()) => {}, Err(e) => return Err(e) }
    match lexer.expect(',') { Ok(()) => {}, Err(e) => return Err(e) }
    match parse_skipped_list(&mut lexer) { Ok(_) => {}, Err(e) => return Err(e) }
    match lexer.expect(',') { Ok(()) => {}, Err(e) => return Err(e) }
    let env = match parse_env_list(&mut lexer) { Ok(v) => v, Err(e) => return Err(e) };
    match lexer.expect(')') { Ok(()) => {}, Err(e) => return Err(e) }
    Ok(ParsedDerivation {
        outputs: build_outputs(&outs),
        input_drvs: build_input_drvs(&drvs),
        input_srcs: build_input_srcs(&srcs),
        platform,
        builder: String::new(),
        args: Vec::new(),
        env: Vec::new(),
        pname: last_pname(&env),
    })
}

} // verus!
