use crate::range::Point;
use vstd::prelude::*;
use vstd::string::StrSliceExecFns;

verus! {

/// A line that does not spell an instruction.
#[derive(Debug, PartialEq, Eq, Structural)]
pub struct ParseError;

/// What an instruction does to each cell of its region.
#[derive(Copy, Clone, Debug, PartialEq, Eq, Structural)]
pub enum Operation {
    TurnOn,
    TurnOff,
    Toggle,
}

/// An instruction: an operation over the rectangle from `from` to `to`.
#[derive(Copy, Clone, Debug, PartialEq, Eq, Structural)]
pub struct ParsedLine {
    pub op: Operation,
    pub from: Point,
    pub to: Point,
}

/// Whether `char::is_alphanumeric` holds of a character outside ASCII.
pub uninterp spec fn unicode_alphanumeric(c: char) -> bool;

/// Whether `c` is an ASCII letter or digit.
pub open spec fn ascii_alphanumeric(c: char) -> bool {
    ||| 48 <= c as u32 <= 57
    ||| 65 <= c as u32 <= 90
    ||| 97 <= c as u32 <= 122
}

/// Whether `c` belongs to a token.
pub open spec fn is_alnum(c: char) -> bool {
    if (c as u32) < 128 {
        ascii_alphanumeric(c)
    } else {
        unicode_alphanumeric(c)
    }
}

/// Relies on `char::is_alphanumeric`, which on ASCII holds of letters and digits alone.
#[verifier::external_body]
fn is_alphanumeric(c: char) -> (r: bool)
    ensures
        (c as u32) < 128 ==> r == ascii_alphanumeric(c),
        (c as u32) >= 128 ==> r == unicode_alphanumeric(c),
{
    c.is_alphanumeric()
}

/// Index of the first token character of `s` at or after `i`, or the length of `s`.
pub open spec fn token_start(s: Seq<char>, i: int) -> int
    decreases s.len() - i,
{
    if i >= s.len() {
        s.len() as int
    } else if is_alnum(s[i]) {
        i
    } else {
        token_start(s, i + 1)
    }
}

/// Index of the first separator character of `s` at or after `i`, or the length of `s`.
pub open spec fn token_end(s: Seq<char>, i: int) -> int
    decreases s.len() - i,
{
    if i >= s.len() {
        s.len() as int
    } else if !is_alnum(s[i]) {
        i
    } else {
        token_end(s, i + 1)
    }
}

proof fn lemma_token_start(s: Seq<char>, i: int)
    requires
        0 <= i <= s.len(),
    ensures
        i <= token_start(s, i) <= s.len(),
        token_start(s, i) < s.len() ==> is_alnum(s[token_start(s, i)]),
    decreases s.len() - i,
{
    if i < s.len() && !is_alnum(s[i]) {
        lemma_token_start(s, i + 1);
    }
}

proof fn lemma_token_end(s: Seq<char>, i: int)
    requires
        0 <= i <= s.len(),
    ensures
        i <= token_end(s, i) <= s.len(),
        i < s.len() && is_alnum(s[i]) ==> i < token_end(s, i),
        token_end(s, i) < s.len() ==> !is_alnum(s[token_end(s, i)]),
        forall|k: int| i <= k < token_end(s, i) ==> is_alnum(#[trigger] s[k]),
    decreases s.len() - i,
{
    if i < s.len() && is_alnum(s[i]) {
        lemma_token_end(s, i + 1);
    }
}

/// The tokens of `s` from index `i` on: the maximal runs of alphanumeric characters, in order.
pub open spec fn tokens_from(s: Seq<char>, i: int) -> Seq<Seq<char>>
    decreases s.len() - i,
    via tokens_from_decreases
{
    if i < 0 || i > s.len() {
        Seq::empty()
    } else {
        let start = token_start(s, i);
        if start >= s.len() {
            Seq::empty()
        } else {
            let end = token_end(s, start);
            seq![s.subrange(start, end)] + tokens_from(s, end)
        }
    }
}

#[via_fn]
proof fn tokens_from_decreases(s: Seq<char>, i: int) {
    if 0 <= i <= s.len() {
        lemma_token_start(s, i);
        let start = token_start(s, i);
        if start < s.len() {
            lemma_token_end(s, start);
        }
    }
}

/// The tokens of `s`.
pub open spec fn tokenize(s: Seq<char>) -> Seq<Seq<char>> {
    tokens_from(s, 0)
}

/// Whether `c` is an ASCII digit.
pub open spec fn is_digit(c: char) -> bool {
    48 <= c as u32 <= 57
}

/// The number that the digits `s` spell in base ten.
pub open spec fn digits_value(s: Seq<char>) -> nat
    decreases s.len(),
{
    if s.len() == 0 {
        0
    } else {
        digits_value(s.drop_last()) * 10 + (s.last() as u32 - 48) as nat
    }
}

/// The coordinate that token `s` spells, if it is a run of digits whose value fits a `usize`.
pub open spec fn number_of(s: Seq<char>) -> Option<usize> {
    if s.len() > 0 && (forall|i: int| 0 <= i < s.len() ==> is_digit(#[trigger] s[i]))
        && digits_value(s) <= usize::MAX {
        Some(digits_value(s) as usize)
    } else {
        None
    }
}

/// The operation that the words `w1` and `w2` name.
pub open spec fn operation_of(w1: Seq<char>, w2: Seq<char>) -> Result<Operation, ParseError> {
    if w1 == "turn"@ && w2 == "on"@ {
        Ok(Operation::TurnOn)
    } else if w1 == "turn"@ && w2 == "off"@ {
        Ok(Operation::TurnOff)
    } else if w1 == "toggle"@ {
        Ok(Operation::Toggle)
    } else {
        Err(ParseError)
    }
}

/// Number of words that name operation `op`.
pub open spec fn op_word_count(op: Operation) -> int {
    if op == Operation::Toggle {
        1
    } else {
        2
    }
}

/// Number of tokens that an instruction with operation `op` takes up.
pub open spec fn instruction_len(op: Operation) -> int {
    op_word_count(op) + 5
}

/// The instruction that the tokens `t` begin with: operation words, the first point, one word
/// that is skipped, the second point.
pub open spec fn parse_tokens(t: Seq<Seq<char>>) -> Result<ParsedLine, ParseError> {
    if t.len() < 2 {
        Err(ParseError)
    } else {
        match operation_of(t[0], t[1]) {
            Err(e) => Err(e),
            Ok(op) => {
                let b = op_word_count(op);
                if t.len() < b + 5 {
                    Err(ParseError)
                } else {
                    match (
                        number_of(t[b]),
                        number_of(t[b + 1]),
                        number_of(t[b + 3]),
                        number_of(t[b + 4]),
                    ) {
                        (Some(x1), Some(y1), Some(x2), Some(y2)) => Ok(
                            ParsedLine { op, from: Point(x1, y1), to: Point(x2, y2) },
                        ),
                        _ => Err(ParseError),
                    }
                }
            },
        }
    }
}

/// Whether `a` and `b` hold the same characters.
fn same_text(a: &str, b: &str) -> (r: bool)
    ensures
        r == (a@ == b@),
{
    let n = a.unicode_len();
    if n != b.unicode_len() {
        return false;
    }
    let mut i: usize = 0;
    while i < n
        invariant
            n == a@.len() == b@.len(),
            i <= n,
            a@.subrange(0, i as int) == b@.subrange(0, i as int),
        decreases n - i,
    {
        if a.get_char(i) != b.get_char(i) {
            return false;
        }
        proof {
            assert(a@.subrange(0, i + 1) =~= a@.subrange(0, i as int).push(a@[i as int]));
            assert(b@.subrange(0, i + 1) =~= b@.subrange(0, i as int).push(b@[i as int]));
        }
        i = i + 1;
    }
    proof {
        assert(a@ =~= a@.subrange(0, n as int));
        assert(b@ =~= b@.subrange(0, n as int));
    }
    true
}

/// Digits keep their value when more digits follow.
proof fn lemma_digits_prefix(s: Seq<char>, k: int)
    requires
        0 <= k <= s.len(),
        forall|i: int| 0 <= i < s.len() ==> is_digit(#[trigger] s[i]),
    ensures
        digits_value(s.subrange(0, k)) <= digits_value(s),
    decreases s.len(),
{
    if k < s.len() {
        assert(s.drop_last().subrange(0, k) =~= s.subrange(0, k));
        lemma_digits_prefix(s.drop_last(), k);
    } else {
        assert(s.subrange(0, k) =~= s);
    }
}

/// Reads token `t` as a coordinate.
fn parse_number(t: &str) -> (r: Option<usize>)
    ensures
        r == number_of(t@),
{
    let n = t.unicode_len();
    if n == 0 {
        return None;
    }
    let mut acc: usize = 0;
    let mut i: usize = 0;
    while i < n
        invariant
            n == t@.len(),
            i <= n,
            forall|k: int| 0 <= k < i ==> is_digit(#[trigger] t@[k]),
            acc == digits_value(t@.subrange(0, i as int)),
        decreases n - i,
    {
        let c = t.get_char(i);
        if !(c >= '0' && c <= '9') {
            return None;
        }
        let d = (c as u32 - 48) as usize;
        proof {
            assert(t@.subrange(0, i + 1).drop_last() =~= t@.subrange(0, i as int));
        }
        if acc > (usize::MAX - d) / 10 {
            proof {
                if forall|k: int| 0 <= k < t@.len() ==> is_digit(#[trigger] t@[k]) {
                    lemma_digits_prefix(t@, i + 1);
                }
            }
            return None;
        }
        acc = acc * 10 + d;
        i = i + 1;
    }
    proof {
        assert(t@.subrange(0, n as int) =~= t@);
    }
    Some(acc)
}



/// Reads instructions from a line of text, token by token.
pub struct Parser<'a> {
    src: &'a str,
    len: usize,
    pos: usize,
}

impl<'a> Parser<'a> {
    /// The tokens that are still to come.
    pub closed spec fn tokens(&self) -> Seq<Seq<char>> {
        tokens_from(self.src@, self.pos as int)
    }

    pub closed spec fn wf(&self) -> bool {
        &&& self.len == self.src@.len()
        &&& self.pos <= self.len
    }

    /// Starts at the beginning of `input`.
    pub fn new(input: &'a str) -> (r: Parser<'a>)
        ensures
            r.wf(),
            r.tokens() == tokenize(input@),
    {
        Parser { src: input, len: input.unicode_len(), pos: 0 }
    }

    /// The next token, or `None` once there is none left.
    pub fn next_token(&mut self) -> (r: Option<&'a str>)
        requires
            old(self).wf(),
        ensures
            final(self).wf(),
            old(self).tokens().len() == 0 ==> r is None && final(self).tokens() == old(self).tokens(),
            old(self).tokens().len() > 0 ==> r is Some && r->0@ == old(self).tokens()[0]
                && final(self).tokens() == old(self).tokens().drop_first(),
    {
        let ghost s = self.src@;
        let ghost p = self.pos as int;
        let mut i = self.pos;
        proof {
            lemma_token_start(s, p);
        }
        while i < self.len && !is_alphanumeric(self.src.get_char(i))
            invariant
                self.wf(),
                s == self.src@,
                p <= i <= self.len,
                token_start(s, i as int) == token_start(s, p),
            decreases self.len - i,
        {
            i = i + 1;
        }
        if i >= self.len {
            self.pos = self.len;
            assert(self.tokens() =~= Seq::<Seq<char>>::empty());
            return None;
        }
        let start = i;
        proof {
            lemma_token_end(s, start as int);
        }
        i = i + 1;
        while i < self.len && is_alphanumeric(self.src.get_char(i))
            invariant
                self.wf(),
                s == self.src@,
                start < i <= self.len,
                token_end(s, i as int) == token_end(s, start as int),
            decreases self.len - i,
        {
            i = i + 1;
        }
        self.pos = i;
        Some(self.src.substring_char(start, i))
    }

    /// Names the operation of words `token1` and `token2`.
    fn get_operation(token1: &str, token2: &str) -> (r: Result<Operation, ParseError>)
        ensures
            r == operation_of(token1@, token2@),
    {
        if same_text(token1, "turn") && same_text(token2, "on") {
            Ok(Operation::TurnOn)
        } else if same_text(token1, "turn") && same_text(token2, "off") {
            Ok(Operation::TurnOff)
        } else if same_text(token1, "toggle") {
            Ok(Operation::Toggle)
        } else {
            Err(ParseError)
        }
    }

    /// Reads the point whose coordinates are tokens `token1` and `token2`.
    fn get_point(token1: &str, token2: &str) -> (r: Result<Point, ParseError>)
        ensures
            match (number_of(token1@), number_of(token2@)) {
                (Some(x), Some(y)) => r == Ok::<Point, ParseError>(Point(x, y)),
                _ => r == Err::<Point, ParseError>(ParseError),
            },
    {
        let x = match parse_number(token1) {
            Some(x) => x,
            None => return Err(ParseError),
        };
        let y = match parse_number(token2) {
            Some(y) => y,
            None => return Err(ParseError),
        };
        Ok(Point(x, y))
    }

    /// The next token, or `ParseError` where the line has ended.
    fn expect_token(&mut self) -> (r: Result<&'a str, ParseError>)
        requires
            old(self).wf(),
        ensures
            final(self).wf(),
            old(self).tokens().len() == 0 ==> r is Err && final(self).tokens() == old(self).tokens(),
            old(self).tokens().len() > 0 ==> r is Ok && r->Ok_0@ == old(self).tokens()[0]
                && final(self).tokens() == old(self).tokens().drop_first(),
    {
        match self.next_token() {
            Some(t) => Ok(t),
            None => Err(ParseError),
        }
    }

    /// Reads one instruction from the tokens that remain.
    ///
    /// On success the instruction's tokens are used up; on failure the tokens that remain are
    /// those that follow some of them.
    pub fn parse(&mut self) -> (r: Result<ParsedLine, ParseError>)
        requires
            old(self).wf(),
        ensures
            final(self).wf(),
            r == parse_tokens(old(self).tokens()),
            r is Ok ==> final(self).tokens() == old(self).tokens().skip(instruction_len(r->Ok_0.op)),
            r is Err ==> final(self).tokens() == old(self).tokens().skip(
                old(self).tokens().len() - final(self).tokens().len(),
            ),
    {
        let ghost t = self.tokens();
        let op_token1 = match self.expect_token() {
            Ok(tk) => tk,
            Err(e) => {
                assert(t.skip(0) =~= t);
                return Err(e);
            },
        };
        let op_token2 = match self.expect_token() {
            Ok(tk) => tk,
            Err(e) => {
                assert(t.skip(1) =~= t.drop_first());
                return Err(e);
            },
        };
        assert(self.tokens() =~= t.skip(2));
        let op = match Self::get_operation(op_token1, op_token2) {
            Ok(op) => op,
            Err(e) => return Err(e),
        };
        let b: usize = if op != Operation::Toggle {
            2
        } else {
            1
        };
        // A one-word operation leaves its second token to the first point.
        let p1_token1 = if op != Operation::Toggle {
            match self.expect_token() {
                Ok(tk) => tk,
                Err(e) => return Err(e),
            }
        } else {
            op_token2
        };
        assert(self.tokens() =~= t.skip(b + 1));
        let p1_token2 = match self.expect_token() {
            Ok(tk) => tk,
            Err(e) => return Err(e),
        };
        assert(self.tokens() =~= t.skip(b + 2));
        let from = match Self::get_point(p1_token1, p1_token2) {
            Ok(p) => p,
            Err(e) => return Err(e),
        };
        // The word between the two points.
        match self.expect_token() {
            Ok(_) => {},
            Err(e) => return Err(e),
        }
        assert(self.tokens() =~= t.skip(b + 3));
        let p2_token1 = match self.expect_token() {
            Ok(tk) => tk,
            Err(e) => return Err(e),
        };
        assert(self.tokens() =~= t.skip(b + 4));
        let p2_token2 = match self.expect_token() {
            Ok(tk) => tk,
            Err(e) => return Err(e),
        };
        assert(self.tokens() =~= t.skip(b + 5));
        let to = match Self::get_point(p2_token1, p2_token2) {
            Ok(p) => p,
            Err(e) => return Err(e),
        };
        Ok(ParsedLine { op, from, to })
    }
}

} // verus!

verus! {

/// The base-ten digits of `n`, without leading zeros.
pub open spec fn decimal(n: nat) -> Seq<char>
    decreases n,
{
    if n < 10 {
        seq![((n + 48) as u8) as char]
    } else {
        decimal(n / 10).push((((n % 10) + 48) as u8) as char)
    }
}

/// The words that name operation `op`.
pub open spec fn op_words(op: Operation) -> Seq<Seq<char>> {
    match op {
        Operation::TurnOn => seq!["turn"@, "on"@],
        Operation::TurnOff => seq!["turn"@, "off"@],
        Operation::Toggle => seq!["toggle"@],
    }
}

/// The tokens of the instruction that applies `op` to the rectangle from `from` to `to`.
pub open spec fn instruction_tokens(op: Operation, from: Point, to: Point) -> Seq<Seq<char>> {
    op_words(op) + seq![
        decimal(from.0 as nat),
        decimal(from.1 as nat),
        "through"@,
        decimal(to.0 as nat),
        decimal(to.1 as nat),
    ]
}

proof fn lemma_decimal(n: nat)
    ensures
        decimal(n).len() > 0,
        forall|i: int| 0 <= i < decimal(n).len() ==> is_digit(#[trigger] decimal(n)[i]),
        digits_value(decimal(n)) == n,
    decreases n,
{
    let d = ((n % 10 + 48) as u8) as char;
    assert(d as u32 == n % 10 + 48);
    if n >= 10 {
        lemma_decimal(n / 10);
        assert(decimal(n).drop_last() =~= decimal(n / 10));
        assert(decimal(n).last() == d);
        assert(n == (n / 10) * 10 + n % 10);
        assert(digits_value(decimal(n)) == digits_value(decimal(n / 10)) * 10 + (d as u32 - 48) as nat);
    } else {
        assert(decimal(n).drop_last() =~= Seq::<char>::empty());
        assert(n % 10 == n);
        assert(digits_value(decimal(n)) == digits_value(Seq::<char>::empty()) * 10 + (d as u32 - 48) as nat);
    }
}

/// A coordinate written in base ten reads back as itself.
pub proof fn lemma_number_of_decimal(n: usize)
    ensures
        number_of(decimal(n as nat)) == Some(n),
{
    lemma_decimal(n as nat);
}

/// Tokens that spell an instruction parse to that instruction, whatever tokens follow them.
pub proof fn lemma_parse_instruction(op: Operation, from: Point, to: Point, rest: Seq<Seq<char>>)
    ensures
        parse_tokens(instruction_tokens(op, from, to) + rest) == Ok::<ParsedLine, ParseError>(
            ParsedLine { op, from, to },
        ),
{
    reveal_strlit("turn");
    reveal_strlit("on");
    reveal_strlit("off");
    reveal_strlit("toggle");
    lemma_number_of_decimal(from.0);
    lemma_number_of_decimal(from.1);
    lemma_number_of_decimal(to.0);
    lemma_number_of_decimal(to.1);
    let t = instruction_tokens(op, from, to) + rest;
    assert("toggle"@.len() != "turn"@.len());
    assert("on"@ != "off"@) by {
        assert("on"@.len() != "off"@.len());
    }
    let b = op_word_count(op);
    assert(t[b] == decimal(from.0 as nat));
    assert(t[b + 1] == decimal(from.1 as nat));
    assert(t[b + 3] == decimal(to.0 as nat));
    assert(t[b + 4] == decimal(to.1 as nat));
}

} // verus!

verus! {

proof fn lemma_start_shift(p: Seq<char>, r: Seq<char>, i: int)
    requires
        0 <= i <= r.len(),
    ensures
        token_start(p + r, p.len() + i) == p.len() + token_start(r, i),
    decreases r.len() - i,
{
    if i < r.len() {
        assert((p + r)[p.len() + i] == r[i]);
        lemma_start_shift(p, r, i + 1);
    }
}

proof fn lemma_end_shift(p: Seq<char>, r: Seq<char>, i: int)
    requires
        0 <= i <= r.len(),
    ensures
        token_end(p + r, p.len() + i) == p.len() + token_end(r, i),
    decreases r.len() - i,
{
    if i < r.len() {
        assert((p + r)[p.len() + i] == r[i]);
        lemma_end_shift(p, r, i + 1);
    }
}

/// Characters in front of index `i` do not change the tokens from `i` on.
proof fn lemma_tokens_shift(p: Seq<char>, r: Seq<char>, i: int)
    requires
        0 <= i <= r.len(),
    ensures
        tokens_from(p + r, p.len() + i) == tokens_from(r, i),
    decreases r.len() - i,
{
    let s = p + r;
    lemma_start_shift(p, r, i);
    lemma_token_start(r, i);
    let start = token_start(r, i);
    if start < r.len() {
        lemma_end_shift(p, r, start);
        lemma_token_end(r, start);
        let end = token_end(r, start);
        assert(s.subrange(p.len() + start, p.len() + end) =~= r.subrange(start, end));
        lemma_tokens_shift(p, r, end);
    }
}

/// Separators from `i` to `j` are skipped.
proof fn lemma_start_skip(s: Seq<char>, i: int, j: int)
    requires
        0 <= i <= j <= s.len(),
        forall|k: int| i <= k < j ==> !is_alnum(#[trigger] s[k]),
    ensures
        token_start(s, i) == token_start(s, j),
    decreases j - i,
{
    if i < j {
        lemma_start_skip(s, i + 1, j);
    }
}

/// A run of token characters from `i` that stops at `j` ends there.
proof fn lemma_end_at(s: Seq<char>, i: int, j: int)
    requires
        0 <= i <= j <= s.len(),
        forall|k: int| i <= k < j ==> is_alnum(#[trigger] s[k]),
        j < s.len() ==> !is_alnum(s[j]),
    ensures
        token_end(s, i) == j,
    decreases j - i,
{
    if i < j {
        lemma_end_at(s, i + 1, j);
    }
}

/// A word, then separators, then more text: the word is the first token.
proof fn lemma_word_then(w: Seq<char>, sep: Seq<char>, r: Seq<char>)
    requires
        w.len() > 0,
        sep.len() > 0,
        forall|k: int| 0 <= k < w.len() ==> is_alnum(#[trigger] w[k]),
        forall|k: int| 0 <= k < sep.len() ==> !is_alnum(#[trigger] sep[k]),
    ensures
        tokenize(w + (sep + r)) == seq![w] + tokenize(r),
{
    let s = w + (sep + r);
    let head = w + sep;
    assert(s =~= head + r);
    assert forall|k: int| 0 <= k < w.len() implies is_alnum(#[trigger] s[k]) by {
        assert(s[k] == w[k]);
    }
    assert(s[w.len() as int] == sep[0]);
    lemma_end_at(s, 0, w.len() as int);
    assert forall|k: int| w.len() <= k < head.len() implies !is_alnum(#[trigger] s[k]) by {
        assert(s[k] == sep[k - w.len()]);
    }
    lemma_start_skip(s, w.len() as int, head.len() as int);
    lemma_token_start(s, head.len() as int);
    lemma_tokens_shift(head, r, 0);
    assert(s.subrange(0, w.len() as int) =~= w);
    assert(tokens_from(s, w.len() as int) == tokens_from(s, head.len() as int));
    assert(tokenize(s) =~= seq![w] + tokenize(r));
}

/// A lone word is one token.
proof fn lemma_word_alone(w: Seq<char>)
    requires
        w.len() > 0,
        forall|k: int| 0 <= k < w.len() ==> is_alnum(#[trigger] w[k]),
    ensures
        tokenize(w) == seq![w],
{
    lemma_end_at(w, 0, w.len() as int);
    assert(token_start(w, 0) == 0);
    assert(w.subrange(0, w.len() as int) =~= w);
    assert(tokens_from(w, w.len() as int) =~= Seq::<Seq<char>>::empty());
    assert(tokenize(w) =~= seq![w]);
}

/// Base-ten digits are token characters.
proof fn lemma_decimal_word(n: nat)
    ensures
        decimal(n).len() > 0,
        forall|k: int| 0 <= k < decimal(n).len() ==> is_alnum(#[trigger] decimal(n)[k]),
{
    lemma_decimal(n);
    assert forall|k: int| 0 <= k < decimal(n).len() implies is_alnum(#[trigger] decimal(n)[k]) by {
        assert(is_digit(decimal(n)[k]));
    }
}

/// The text of the instruction that applies `op` to the rectangle from `from` to `to`, as it
/// is written in an instruction list: `turn on 0,0 through 999,999`.
pub open spec fn instruction_text(op: Operation, from: Point, to: Point) -> Seq<char> {
    let points = decimal(from.0 as nat) + (","@ + (decimal(from.1 as nat) + (" through "@ + (
    decimal(to.0 as nat) + (","@ + decimal(to.1 as nat))))));
    match op {
        Operation::TurnOn => "turn on "@ + points,
        Operation::TurnOff => "turn off "@ + points,
        Operation::Toggle => "toggle "@ + points,
    }
}

/// The text of an instruction splits into the instruction's tokens.
pub proof fn lemma_tokenize_instruction(op: Operation, from: Point, to: Point)
    ensures
        tokenize(instruction_text(op, from, to)) == instruction_tokens(op, from, to),
{
    reveal_strlit("turn on ");
    reveal_strlit("turn off ");
    reveal_strlit("toggle ");
    reveal_strlit(" through ");
    reveal_strlit(",");
    reveal_strlit(" ");
    reveal_strlit("turn");
    reveal_strlit("on");
    reveal_strlit("off");
    reveal_strlit("toggle");
    reveal_strlit("through");
    let (x1, y1, x2, y2) = (
        decimal(from.0 as nat),
        decimal(from.1 as nat),
        decimal(to.0 as nat),
        decimal(to.1 as nat),
    );
    lemma_decimal_word(from.0 as nat);
    lemma_decimal_word(from.1 as nat);
    lemma_decimal_word(to.0 as nat);
    lemma_decimal_word(to.1 as nat);
    let sp = " "@;
    let comma = ","@;
    assert(forall|k: int| 0 <= k < sp.len() ==> !is_alnum(#[trigger] sp[k]));
    assert(forall|k: int| 0 <= k < comma.len() ==> !is_alnum(#[trigger] comma[k]));
    assert(forall|k: int| 0 <= k < "through"@.len() ==> is_alnum(#[trigger] "through"@[k]));
    assert(forall|k: int| 0 <= k < "turn"@.len() ==> is_alnum(#[trigger] "turn"@[k]));
    assert(forall|k: int| 0 <= k < "on"@.len() ==> is_alnum(#[trigger] "on"@[k]));
    assert(forall|k: int| 0 <= k < "off"@.len() ==> is_alnum(#[trigger] "off"@[k]));
    assert(forall|k: int| 0 <= k < "toggle"@.len() ==> is_alnum(#[trigger] "toggle"@[k]));
    let t6 = comma + y2;
    let t5 = x2 + t6;
    let t4 = sp + t5;
    let t3 = "through"@ + t4;
    let t2 = sp + t3;
    let t1 = y1 + t2;
    let t0 = comma + t1;
    let points = x1 + t0;
    lemma_word_alone(y2);
    lemma_word_then(x2, comma, y2);
    lemma_word_then("through"@, sp, t5);
    lemma_word_then(y1, sp, t3);
    lemma_word_then(x1, comma, t1);
    assert(" through "@ + t5 =~= t2);
    assert(tokenize(points) =~= seq![x1, y1, "through"@, x2, y2]);
    let text = instruction_text(op, from, to);
    match op {
        Operation::TurnOn => {
            lemma_word_then("on"@, sp, points);
            lemma_word_then("turn"@, sp, "on"@ + (sp + points));
            assert(text =~= "turn"@ + (sp + ("on"@ + (sp + points))));
        },
        Operation::TurnOff => {
            lemma_word_then("off"@, sp, points);
            lemma_word_then("turn"@, sp, "off"@ + (sp + points));
            assert(text =~= "turn"@ + (sp + ("off"@ + (sp + points))));
        },
        Operation::Toggle => {
            lemma_word_then("toggle"@, sp, points);
            assert(text =~= "toggle"@ + (sp + points));
        },
    }
    assert(tokenize(text) =~= instruction_tokens(op, from, to));
}

/// An instruction, written out as text, parses back to itself.
pub proof fn lemma_parse_text(op: Operation, from: Point, to: Point)
    ensures
        parse_tokens(tokenize(instruction_text(op, from, to))) == Ok::<ParsedLine, ParseError>(
            ParsedLine { op, from, to },
        ),
{
    lemma_tokenize_instruction(op, from, to);
    lemma_parse_instruction(op, from, to, Seq::empty());
    assert(instruction_tokens(op, from, to) + Seq::empty() =~= instruction_tokens(op, from, to));
}

} // verus!
