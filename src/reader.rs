use vstd::prelude::*;
use crate::types::{data_of, lemma_data_of_push, Datum, MalType, KEYWORD_MARK};

verus! {

/// The text of each token, in order.
pub open spec fn texts(v: Seq<String>) -> Seq<Seq<char>> {
    v.map_values(|t: String| t@)
}

pub open spec fn starts_with(t: Seq<char>, c: char) -> bool {
    t.len() > 0 && t[0] == c
}

/// What the lexical pattern captures at each successive match in `code`: the
/// text of the match with the separators before it left out. Comments and
/// empty captures are still among them.
pub uninterp spec fn lexical_matches(code: Seq<char>) -> Seq<Seq<char>>;

/// A capture that becomes a token: not empty, and not a comment.
pub open spec fn is_token(m: Seq<char>) -> bool {
    m.len() > 0 && m[0] != ';'
}

/// The captures that become tokens, in order.
pub open spec fn kept_tokens(ms: Seq<Seq<char>>) -> Seq<Seq<char>>
    decreases ms.len(),
{
    if ms.len() == 0 {
        Seq::empty()
    } else if is_token(ms.last()) {
        kept_tokens(ms.drop_last()).push(ms.last())
    } else {
        kept_tokens(ms.drop_last())
    }
}

/// The tokens of a source text.
pub open spec fn lexed(code: Seq<char>) -> Seq<Seq<char>> {
    kept_tokens(lexical_matches(code))
}

pub open spec fn is_digit(c: char) -> bool {
    '0' <= c && c <= '9'
}

pub open spec fn all_digits(s: Seq<char>) -> bool {
    forall|i: int| 0 <= i < s.len() ==> is_digit(#[trigger] s[i])
}

/// A run of ASCII digits, with an optional leading `-`, and nothing else.
pub open spec fn is_numeral(s: Seq<char>) -> bool {
    if s.len() > 0 && s[0] == '-' {
        s.len() > 1 && all_digits(s.drop_first())
    } else {
        s.len() > 0 && all_digits(s)
    }
}

pub open spec fn digit_value(c: char) -> int {
    c as int - '0' as int
}

/// The base-ten value of a run of digits.
pub open spec fn digits_value(s: Seq<char>) -> int
    decreases s.len(),
{
    if s.len() == 0 {
        0
    } else {
        digits_value(s.drop_last()) * 10 + digit_value(s.last())
    }
}

/// The value of a numeral, negative when it starts with `-`.
pub open spec fn numeral_value(s: Seq<char>) -> int {
    if s.len() > 0 && s[0] == '-' {
        -digits_value(s.drop_first())
    } else {
        digits_value(s)
    }
}

/// The value that a token read as an atom stands for. A numeral whose value
/// does not fit in an `i32` is an error.
pub open spec fn atom_of(t: Seq<char>) -> Datum {
    if is_numeral(t) {
        if i32::MIN <= numeral_value(t) <= i32::MAX {
            Datum::Number(numeral_value(t))
        } else {
            Datum::Error("number out of range"@)
        }
    } else if t == "true"@ {
        Datum::Bool(true)
    } else if t == "false"@ {
        Datum::Bool(false)
    } else if t == "nil"@ {
        Datum::Nil
    } else if starts_with(t, ':') {
        Datum::Keyword(seq![KEYWORD_MARK] + t.drop_first())
    } else {
        Datum::Symbol(t)
    }
}

/// The message for a delimiter that was expected and not found.
pub open spec fn missing_text(c: char) -> Seq<char> {
    "expected "@ + seq![c] + " but not"@
}

/// The form that starts at token `pos`, and the position after it.
pub open spec fn form_at(toks: Seq<Seq<char>>, pos: int) -> (Datum, int)
    decreases toks.len() - pos, 3int,
{
    if pos < 0 || pos >= toks.len() {
        (Datum::Error("empty code"@), pos)
    } else if starts_with(toks[pos], '(') {
        let (r, p) = container_at(toks, pos, '(', ')');
        (
            match r {
                Ok(items) => Datum::List(items),
                Err(e) => Datum::Error(e),
            },
            p,
        )
    } else if starts_with(toks[pos], '[') {
        let (r, p) = container_at(toks, pos, '[', ']');
        (
            match r {
                Ok(items) => Datum::Vector(items),
                Err(e) => Datum::Error(e),
            },
            p,
        )
    } else {
        (atom_of(toks[pos]), pos + 1)
    }
}

/// The elements of the container whose opening token is at `pos`, and the
/// position after its closing token; or the failure and where it stopped.
pub open spec fn container_at(toks: Seq<Seq<char>>, pos: int, left: char, right: char) -> (
    Result<Seq<Datum>, Seq<char>>,
    int,
)
    decreases toks.len() - pos, 1int,
{
    if pos < 0 || pos >= toks.len() {
        (Err(missing_text(left)), pos)
    } else if !starts_with(toks[pos], left) {
        (Err(missing_text(left)), pos + 1)
    } else {
        elements_at(toks, pos + 1, right, Seq::empty())
    }
}

/// The elements read from `pos` up to the token that starts with `right`,
/// after the elements `done` that were read before.
pub open spec fn elements_at(toks: Seq<Seq<char>>, pos: int, right: char, done: Seq<Datum>) -> (
    Result<Seq<Datum>, Seq<char>>,
    int,
)
    decreases toks.len() - pos, 4int,
{
    if pos < 0 || pos >= toks.len() {
        (Err(missing_text(right)), pos)
    } else if starts_with(toks[pos], right) {
        (Ok(done), pos + 1)
    } else {
        let (d, p) = form_at(toks, pos);
        if !(pos < p <= toks.len()) {
            // never taken: a form takes at least one token (lemma_form_advances)
            (Err(missing_text(right)), p)
        } else {
            elements_at(toks, p, right, done.push(d))
        }
    }
}

pub proof fn lemma_form_advances(toks: Seq<Seq<char>>, pos: int)
    requires
        0 <= pos < toks.len(),
    ensures
        pos < form_at(toks, pos).1 <= toks.len(),
    decreases toks.len() - pos, 3int,
{
    if starts_with(toks[pos], '(') {
        lemma_elements_advance(toks, pos + 1, ')', Seq::empty());
    } else if starts_with(toks[pos], '[') {
        lemma_elements_advance(toks, pos + 1, ']', Seq::empty());
    }
}

pub proof fn lemma_elements_advance(toks: Seq<Seq<char>>, pos: int, right: char, done: Seq<Datum>)
    requires
        0 <= pos <= toks.len(),
    ensures
        pos <= elements_at(toks, pos, right, done).1 <= toks.len(),
    decreases toks.len() - pos, 4int,
{
    if pos < toks.len() && !starts_with(toks[pos], right) {
        lemma_form_advances(toks, pos);
        let (d, p) = form_at(toks, pos);
        lemma_elements_advance(toks, p, right, done.push(d));
    }
}

/// A cursor over the tokens of one read.
pub struct Reader {
    pub tokens: Vec<String>,
    pub position: usize,
}

impl Reader {
    pub open spec fn toks(&self) -> Seq<Seq<char>> {
        texts(self.tokens@)
    }

    pub fn new(tokens: Vec<String>) -> (r: Reader)
        ensures
            r.tokens == tokens,
            r.position == 0,
    {
        Reader { tokens, position: 0 }
    }

    /// Takes the token under the cursor and moves past it.
    pub fn next(&mut self) -> (t: String)
        requires
            old(self).position < old(self).tokens.len(),
        ensures
            final(self).tokens == old(self).tokens,
            final(self).position == old(self).position + 1,
            t@ == old(self).toks()[old(self).position as int],
    {
        let t = self.tokens[self.position].clone();
        self.position = self.position + 1;
        t
    }

    pub fn peek(&self) -> (r: Option<&String>)
        ensures
            self.position < self.tokens.len() ==> r == Some(&self.tokens[self.position as int]),
            self.position >= self.tokens.len() ==> r is None,
    {
        if self.tokens.len() > self.position {
            Some(&self.tokens[self.position])
        } else {
            None
        }
    }
}

fn starts_with_char(t: &String, c: char) -> (r: bool)
    ensures
        r == starts_with(t@, c),
{
    t.as_str().unicode_len() > 0 && t.as_str().get_char(0) == c
}

/// Relies on `char`'s `ToString` (through `Display`): the one character.
#[verifier::external_body]
fn char_text(c: char) -> (r: String)
    ensures
        r@ == seq![c],
{
    c.to_string()
}

fn missing(c: char) -> (r: String)
    ensures
        r@ == missing_text(c),
{
    String::from_str("expected ").concat(char_text(c).as_str()).concat(" but not")
}

/// Relies on `regex::Regex::captures_iter`: one string per successive match
/// of the lexical pattern in `code`, the text of its first group.
#[verifier::external_body]
fn lexical_scan(code: &str) -> (r: Vec<String>)
    ensures
        texts(r@) == lexical_matches(code@),
{
    let re = regex::Regex::new(
        r#"[\s,]*(~@|[\[\]{}()'`~^@]|"(?:\\.|[^\\"])*"?|;.*|[^\s\[\]{}('"`,;)]*)"#,
    ).unwrap();
    re.captures_iter(code).map(|cap| cap[1].to_string()).collect()
}

/// Relies on `regex::Regex::is_match` with the pattern `^-?[0-9]+$`: a match
/// of the whole text.
#[verifier::external_body]
fn is_int(string: &String) -> (r: bool)
    ensures
        r == is_numeral(string@),
{
    regex::Regex::new(r"^-?[0-9]+$").unwrap().is_match(string)
}

/// Keeps, in order, the captures that are tokens: drops comments and empty
/// captures.
pub fn select_tokens(matches: Vec<String>) -> (r: Vec<String>)
    ensures
        texts(r@) == kept_tokens(texts(matches@)),
{
    let mut res: Vec<String> = Vec::new();
    let mut i: usize = 0;
    while i < matches.len()
        invariant
            i <= matches.len(),
            texts(res@) == kept_tokens(texts(matches@.subrange(0, i as int))),
        decreases matches.len() - i,
    {
        let m = &matches[i];
        let ghost pre = texts(matches@.subrange(0, i as int));
        let ghost next = texts(matches@.subrange(0, i + 1));
        proof {
            assert(next.drop_last() =~= pre);
            assert(next.last() == m@);
        }
        let ghost before = res@;
        if m.as_str().unicode_len() > 0 && m.as_str().get_char(0) != ';' {
            res.push(m.clone());
            proof {
                assert(texts(res@) =~= texts(before).push(m@));
            }
        }
        i = i + 1;
    }
    proof {
        assert(matches@.subrange(0, matches.len() as int) =~= matches@);
    }
    res
}

pub fn tokenize(code: &str) -> (r: Vec<String>)
    ensures
        texts(r@) == lexed(code@),
{
    select_tokens(lexical_scan(code))
}

pub fn read_str(code: &str) -> (r: MalType)
    ensures
        r@ == form_at(lexed(code@), 0).0,
{
    let tokens = tokenize(code);
    let mut reader = Reader::new(tokens);
    read_form(&mut reader)
}

pub fn read_form(reader: &mut Reader) -> (r: MalType)
    ensures
        final(reader).tokens == old(reader).tokens,
        (r@, final(reader).position as int) == form_at(old(reader).toks(), old(reader).position as int),
    decreases old(reader).tokens@.len() - old(reader).position, 3int,
{
    let open_list: bool;
    let open_vector: bool;
    match reader.peek() {
        Some(token) => {
            open_list = starts_with_char(token, '(');
            open_vector = starts_with_char(token, '[');
        },
        None => {
            return MalType::MalError(String::from_str("empty code"));
        },
    }
    if open_list {
        read_list(reader)
    } else if open_vector {
        read_vector(reader)
    } else {
        read_atom(reader)
    }
}

pub fn read_list(reader: &mut Reader) -> (r: MalType)
    ensures
        final(reader).tokens == old(reader).tokens,
        ({
            let (c, p) = container_at(old(reader).toks(), old(reader).position as int, '(', ')');
            &&& r@ == match c {
                Ok(items) => Datum::List(items),
                Err(e) => Datum::Error(e),
            }
            &&& final(reader).position == p
        }),
    decreases old(reader).tokens@.len() - old(reader).position, 2int,
{
    match read_container_elm(reader, '(', ')') {
        Ok(ast) => MalType::MalList { elm: ast },
        Err(e) => MalType::MalError(e),
    }
}

pub fn read_vector(reader: &mut Reader) -> (r: MalType)
    ensures
        final(reader).tokens == old(reader).tokens,
        ({
            let (c, p) = container_at(old(reader).toks(), old(reader).position as int, '[', ']');
            &&& r@ == match c {
                Ok(items) => Datum::Vector(items),
                Err(e) => Datum::Error(e),
            }
            &&& final(reader).position == p
        }),
    decreases old(reader).tokens@.len() - old(reader).position, 2int,
{
    match read_container_elm(reader, '[', ']') {
        Ok(ast) => MalType::MalVector { elm: ast },
        Err(e) => MalType::MalError(e),
    }
}

/// The model of what reading a container's elements returns.
pub open spec fn elements_model(r: Result<Vec<MalType>, String>) -> Result<Seq<Datum>, Seq<char>> {
    match r {
        Ok(v) => Ok(data_of(v@)),
        Err(e) => Err(e@),
    }
}

pub fn read_container_elm(reader: &mut Reader, left: char, right: char) -> (r: Result<
    Vec<MalType>,
    String,
>)
    ensures
        final(reader).tokens == old(reader).tokens,
        (elements_model(r), final(reader).position as int) == container_at(
            old(reader).toks(),
            old(reader).position as int,
            left,
            right,
        ),
    decreases old(reader).tokens@.len() - old(reader).position, 1int,
{
    let ghost toks = reader.toks();
    let ghost start = reader.position as int;
    let ghost tokens = reader.tokens;
    if reader.position >= reader.tokens.len() {
        return Err(missing(left));
    }
    let first = reader.next();
    if !starts_with_char(&first, left) {
        return Err(missing(left));
    }
    let mut ast: Vec<MalType> = Vec::new();
    proof {
        assert(data_of(ast@) =~= Seq::<Datum>::empty());
    }
    loop
        invariant
            reader.tokens == tokens,
            tokens == old(reader).tokens,
            toks == texts(tokens@),
            start == old(reader).position,
            start < reader.position <= toks.len(),
            container_at(toks, start, left, right) == elements_at(
                toks,
                reader.position as int,
                right,
                data_of(ast@),
            ),
        decreases toks.len() - reader.position,
    {
        let closing: bool;
        match reader.peek() {
            Some(token) => {
                closing = starts_with_char(token, right);
            },
            None => {
                return Err(missing(right));
            },
        }
        if closing {
            reader.next();
            return Ok(ast);
        }
        let ghost before = reader.position as int;
        let form = read_form(reader);
        proof {
            lemma_form_advances(toks, before);
            lemma_data_of_push(ast@, form);
        }
        ast.push(form);
    }
}

/// One past the largest magnitude of an `i32`: the accumulated magnitude of
/// a numeral stops growing there.
pub const SATURATION: i64 = 2147483649;

pub open spec fn capped(v: int) -> int {
    if v < SATURATION {
        v
    } else {
        SATURATION as int
    }
}

pub proof fn lemma_digits_nonneg(s: Seq<char>)
    requires
        all_digits(s),
    ensures
        digits_value(s) >= 0,
    decreases s.len(),
{
    if s.len() > 0 {
        assert(is_digit(s[s.len() - 1]));
        lemma_digits_nonneg(s.drop_last());
    }
}

fn read_number(token: &String) -> (r: MalType)
    requires
        is_numeral(token@),
    ensures
        r@ == atom_of(token@),
{
    let s = token.as_str();
    let n = s.unicode_len();
    let negative = s.get_char(0) == '-';
    let first: usize = if negative {
        1
    } else {
        0
    };
    let ghost digits = token@.subrange(first as int, n as int);
    proof {
        if negative {
            assert(digits =~= token@.drop_first());
        } else {
            assert(digits =~= token@);
        }
    }
    let mut acc: i64 = 0;
    let mut i: usize = first;
    proof {
        assert(token@.subrange(first as int, first as int) =~= Seq::<char>::empty());
    }
    while i < n
        invariant
            first <= i <= n,
            n == token@.len(),
            s@ == token@,
            digits == token@.subrange(first as int, n as int),
            all_digits(digits),
            0 <= acc <= SATURATION,
            acc == capped(digits_value(token@.subrange(first as int, i as int))),
        decreases n - i,
    {
        let c = s.get_char(i);
        let ghost pre = token@.subrange(first as int, i as int);
        let ghost next = token@.subrange(first as int, i + 1);
        proof {
            assert(digits[i - first] == c);
            assert(is_digit(c));
            assert(next.drop_last() =~= pre);
            assert(all_digits(pre));
            lemma_digits_nonneg(pre);
        }
        let d: i64 = (c as u32 - 48) as i64;
        acc = acc * 10 + d;
        if acc > SATURATION {
            acc = SATURATION;
        }
        proof {
            let v = digits_value(pre);
            assert(digits_value(next) == v * 10 + d);
            if v >= SATURATION {
                assert(v * 10 + d >= SATURATION) by (nonlinear_arith)
                    requires
                        v >= SATURATION,
                        d >= 0,
                ;
            }
        }
        i = i + 1;
    }
    proof {
        assert(token@.subrange(first as int, n as int) == digits);
    }
    if negative {
        if acc <= 2147483648 {
            MalType::MalNumber((-acc) as i32)
        } else {
            MalType::MalError(String::from_str("number out of range"))
        }
    } else {
        if acc <= 2147483647 {
            MalType::MalNumber(acc as i32)
        } else {
            MalType::MalError(String::from_str("number out of range"))
        }
    }
}

/// Reads the token under the cursor as a number, a boolean, nil, a keyword or
/// a symbol.
pub fn read_atom(reader: &mut Reader) -> (r: MalType)
    requires
        old(reader).position < old(reader).tokens.len(),
    ensures
        final(reader).tokens == old(reader).tokens,
        final(reader).position == old(reader).position + 1,
        r@ == atom_of(old(reader).toks()[old(reader).position as int]),
{
    let token = reader.next();
    if is_int(&token) {
        return read_number(&token);
    }
    proof {
        reveal_strlit("true");
        reveal_strlit("false");
        reveal_strlit("nil");
    }
    if token == String::from_str("true") {
        MalType::MalBool(true)
    } else if token == String::from_str("false") {
        MalType::MalBool(false)
    } else if token == String::from_str("nil") {
        MalType::MalNil
    } else if starts_with_char(&token, ':') {
        let n = token.as_str().unicode_len();
        let k = char_text(KEYWORD_MARK).concat(token.as_str().substring_char(1, n));
        proof {
            assert(k@ =~= seq![KEYWORD_MARK] + token@.drop_first());
        }
        MalType::MalKeyword(k)
    } else {
        MalType::MalSymbol(token)
    }
}

} // verus!
