use vstd::prelude::*;
use vstd::string::*;

verus! {

/// Whitespace as the scanner sees it: space, tab, line feed, carriage return.
pub open spec fn is_space(c: char) -> bool {
    c == ' ' || c == '\t' || c == '\n' || c == '\r'
}

/// The double quote that opens and closes a quoted identifier.
pub open spec fn is_quote(c: char) -> bool {
    c as u32 == 0x22
}

pub open spec fn is_digit(c: char) -> bool {
    '0' <= c && c <= '9'
}

pub open spec fn digit_value(c: char) -> int {
    (c as int) - ('0' as int)
}

/// The first position at or after `p` that does not hold whitespace.
pub open spec fn skip_ws(s: Seq<char>, p: int) -> int
    decreases s.len() - p,
{
    if 0 <= p < s.len() && is_space(s[p]) {
        skip_ws(s, p + 1)
    } else {
        p
    }
}

/// `lit` stands in `s` starting at position `p`.
pub open spec fn literal_at(s: Seq<char>, p: int, lit: Seq<char>) -> bool {
    0 <= p && p + lit.len() <= s.len() && s.subrange(p, p + lit.len()) == lit
}

/// The numeric kinds a number can be read as.
#[derive(Clone, Copy, Debug, PartialEq, Eq, Structural)]
pub enum NumberKind {
    /// 32-bit unsigned.
    Unsigned,
    /// 32-bit signed.
    Signed,
}

impl NumberKind {
    /// A number with this sign and magnitude parses as this kind.
    pub open spec fn accepts(self, negative: bool, magnitude: int) -> bool {
        match self {
            NumberKind::Unsigned => !negative && 0 <= magnitude <= u32::MAX,
            NumberKind::Signed => if negative {
                0 <= magnitude <= 0x8000_0000
            } else {
                0 <= magnitude <= i32::MAX
            },
        }
    }

    /// `v` is a value of this kind.
    pub open spec fn holds(self, v: int) -> bool {
        match self {
            NumberKind::Unsigned => 0 <= v <= u32::MAX,
            NumberKind::Signed => i32::MIN <= v <= i32::MAX,
        }
    }
}

/// The decimal value of the digits `s[a..b]`.
pub open spec fn digits_value(s: Seq<char>, a: int, b: int) -> int
    decreases b - a,
{
    if b <= a {
        0
    } else {
        digits_value(s, a, b - 1) * 10 + digit_value(s[b - 1])
    }
}

/// Grows the digit run `s[start..e]` one digit at a time for as long as its value
/// still parses as `kind`, and gives the end where it stops.
pub open spec fn number_end(s: Seq<char>, start: int, negative: bool, kind: NumberKind, e: int) -> int
    decreases s.len() - e,
{
    if 0 <= start <= e < s.len() && is_digit(s[e]) && kind.accepts(
        negative,
        digits_value(s, start, e + 1),
    ) {
        number_end(s, start, negative, kind, e + 1)
    } else {
        e
    }
}

/// The number read at `p`: an optional `-`, then the longest run of digits that still
/// parses as `kind`. Gives the value and the position after it, or nothing when not a
/// single digit could be taken.
pub open spec fn scan_number(s: Seq<char>, p: int, kind: NumberKind) -> Option<(int, int)> {
    let negative = 0 <= p < s.len() && s[p] == '-';
    let start = if negative {
        p + 1
    } else {
        p
    };
    let end = number_end(s, start, negative, kind, start);
    if end <= start {
        None
    } else {
        let m = digits_value(s, start, end);
        Some((
            if negative {
                -m
            } else {
                m
            },
            end,
        ))
    }
}

/// The first position at or after `p` holding a double quote, or the end.
pub open spec fn quote_end(s: Seq<char>, p: int) -> int
    decreases s.len() - p,
{
    if 0 <= p < s.len() && !is_quote(s[p]) {
        quote_end(s, p + 1)
    } else {
        p
    }
}

/// The first position at or after `p` holding whitespace, or the end.
pub open spec fn word_end(s: Seq<char>, p: int) -> int
    decreases s.len() - p,
{
    if 0 <= p < s.len() && !is_space(s[p]) {
        word_end(s, p + 1)
    } else {
        p
    }
}

/// The identifier read at `p`: a quoted text (the closing quote is consumed, not kept;
/// an unclosed one runs to the end), or else a non-empty run of non-whitespace.
pub open spec fn scan_ident(s: Seq<char>, p: int) -> Option<(Seq<char>, int)> {
    if 0 <= p < s.len() && is_quote(s[p]) {
        let q = quote_end(s, p + 1);
        Some(
            (
                s.subrange(p + 1, q),
                if q < s.len() {
                    q + 1
                } else {
                    q
                },
            ),
        )
    } else {
        let q = word_end(s, p);
        if q <= p {
            None
        } else {
            Some((s.subrange(p, q), q))
        }
    }
}

/// The first position at or after `p` holding whitespace or `=`, or the end.
pub open spec fn key_end(s: Seq<char>, p: int) -> int
    decreases s.len() - p,
{
    if 0 <= p < s.len() && !is_space(s[p]) && s[p] != '=' {
        key_end(s, p + 1)
    } else {
        p
    }
}

pub proof fn lemma_key_end(s: Seq<char>, p: int)
    requires
        0 <= p <= s.len(),
    ensures
        p <= key_end(s, p) <= s.len(),
    decreases s.len() - p,
{
    if p < s.len() && !is_space(s[p]) && s[p] != '=' {
        lemma_key_end(s, p + 1);
    }
}

/// A `key=` assignment begins at `p`: a non-empty key directly followed by `=`.
pub open spec fn assignment_at(s: Seq<char>, p: int) -> bool {
    let q = key_end(s, p);
    p < q < s.len() && s[q] == '='
}

proof fn lemma_number_end(s: Seq<char>, start: int, negative: bool, kind: NumberKind, e: int)
    requires
        0 <= start <= e <= s.len(),
        e == start || kind.accepts(negative, digits_value(s, start, e)),
    ensures
        e <= number_end(s, start, negative, kind, e) <= s.len(),
        number_end(s, start, negative, kind, e) == start || kind.accepts(
            negative,
            digits_value(s, start, number_end(s, start, negative, kind, e)),
        ),
    decreases s.len() - e,
{
    if e < s.len() && is_digit(s[e]) && kind.accepts(negative, digits_value(s, start, e + 1)) {
        lemma_number_end(s, start, negative, kind, e + 1);
    }
}

/// A number read at `p` is a value of its kind and ends after `p`, within the text.
pub proof fn lemma_scan_number(s: Seq<char>, p: int, kind: NumberKind)
    requires
        0 <= p <= s.len(),
    ensures
        scan_number(s, p, kind) matches Some((v, e)) ==> kind.holds(v) && p < e <= s.len(),
{
    let negative = 0 <= p < s.len() && s[p] == '-';
    let start = if negative {
        p + 1
    } else {
        p
    };
    lemma_number_end(s, start, negative, kind, start);
}

proof fn lemma_quote_end(s: Seq<char>, p: int)
    requires
        0 <= p <= s.len(),
    ensures
        p <= quote_end(s, p) <= s.len(),
    decreases s.len() - p,
{
    if p < s.len() && !is_quote(s[p]) {
        lemma_quote_end(s, p + 1);
    }
}

proof fn lemma_word_end(s: Seq<char>, p: int)
    requires
        0 <= p <= s.len(),
    ensures
        p <= word_end(s, p) <= s.len(),
    decreases s.len() - p,
{
    if p < s.len() && !is_space(s[p]) {
        lemma_word_end(s, p + 1);
    }
}

/// An identifier read at `p` ends after `p`, within the text.
pub proof fn lemma_scan_ident(s: Seq<char>, p: int)
    requires
        0 <= p <= s.len(),
    ensures
        scan_ident(s, p) matches Some((t, e)) ==> p < e <= s.len(),
{
    if p < s.len() && is_quote(s[p]) {
        lemma_quote_end(s, p + 1);
    } else {
        lemma_word_end(s, p);
    }
}

pub proof fn lemma_skip_ws_bounds(s: Seq<char>, p: int)
    requires
        0 <= p <= s.len(),
    ensures
        p <= skip_ws(s, p) <= s.len(),
        skip_ws(s, p) < s.len() ==> !is_space(s[skip_ws(s, p)]),
    decreases s.len() - p,
{
    if p < s.len() && is_space(s[p]) {
        lemma_skip_ws_bounds(s, p + 1);
    }
}

/// A character scanner over a fixed text with one position that only moves forward.
#[derive(Clone)]
pub struct Parser {
    source: String,
    chars: Vec<char>,
    cursor: usize,
}

impl Parser {
    /// The text being scanned.
    pub closed spec fn text(&self) -> Seq<char> {
        self.chars@
    }

    /// The current position.
    pub closed spec fn pos(&self) -> int {
        self.cursor as int
    }

    /// The text is held consistently.
    pub closed spec fn consistent(&self) -> bool {
        &&& self.source@ == self.chars@
        &&& self.cursor <= self.chars.len()
    }

    /// The position lies within the text.
    pub open spec fn wf(&self) -> bool {
        &&& 0 <= self.pos() <= self.text().len()
        &&& self.consistent()
    }

    /// A scanner at the start of `text`.
    pub fn new(text: &str) -> (p: Parser)
        ensures
            p.wf(),
            p.text() == text@,
            p.pos() == 0,
    {
        let mut chars: Vec<char> = Vec::new();
        for c in it: text.chars()
            invariant
                chars@ == it.seq().take(it.index() as int),
        {
            chars.push(c);
        }
        proof {
            assert(chars@ =~= text@);
        }
        Parser { source: String::from_str(text), chars, cursor: 0 }
    }

    /// The character `amount` places after the position, if the text has one there.
    pub fn peek(&self, amount: usize) -> (r: Option<char>)
        requires
            self.wf(),
        ensures
            r == (if self.pos() + amount < self.text().len() {
                Some(self.text()[self.pos() + amount])
            } else {
                None
            }),
    {
        if amount >= self.chars.len() - self.cursor {
            None
        } else {
            Some(self.chars[self.cursor + amount])
        }
    }

    /// Tries `text` at the position: the start of a chain of alternatives.
    pub fn expect(&mut self, text: &str) -> (e: Expect)
        requires
            old(self).wf(),
        ensures
            final(self).wf(),
            final(self).text() == old(self).text(),
            if literal_at(old(self).text(), old(self).pos(), text@) {
                &&& e.matched() == Some(text@)
                &&& e.attempted() == Seq::<Seq<char>>::empty()
                &&& final(self).pos() == old(self).pos() + text@.len()
            } else {
                &&& e.matched() is None
                &&& e.attempted() == seq![text@]
                &&& final(self).pos() == old(self).pos()
            },
    {
        let e = Expect::new();
        e.or(text, self)
    }

    /// `text` stands at the position: advances past it and gives true. Otherwise
    /// gives false and leaves the position where it was.
    fn match_literal(&mut self, text: &str) -> (r: bool)
        requires
            old(self).wf(),
        ensures
            final(self).wf(),
            final(self).text() == old(self).text(),
            r == literal_at(old(self).text(), old(self).pos(), text@),
            final(self).pos() == if r {
                old(self).pos() + text@.len()
            } else {
                old(self).pos()
            },
    {
        let n = text.unicode_len();
        if n > self.chars.len() - self.cursor {
            proof {
                assert(!literal_at(self.text(), self.pos(), text@));
            }
            return false;
        }
        let mut i: usize = 0;
        while i < n
            invariant
                self.wf(),
                n == text@.len(),
                self.cursor + n <= self.chars.len(),
                i <= n,
                self.chars@.subrange(self.cursor as int, self.cursor + i) == text@.subrange(0, i as int),
            decreases n - i,
        {
            if self.chars[self.cursor + i] != text.get_char(i) {
                proof {
                    let sub = self.chars@.subrange(self.cursor as int, self.cursor + n);
                    assert(sub[i as int] == self.chars@[self.cursor + i]);
                    assert(sub != text@);
                }
                return false;
            }
            proof {
                assert(self.chars@.subrange(self.cursor as int, self.cursor + i + 1) =~= text@.subrange(
                    0,
                    i + 1,
                ));
            }
            i = i + 1;
        }
        proof {
            assert(text@.subrange(0, n as int) =~= text@);
        }
        self.cursor = self.cursor + n;
        true
    }

    /// Reads a number of the given kind at the position: an optional `-`, then digits
    /// for as long as the text read so far still parses as `kind`. On success the
    /// position moves past what was read; on failure it stays.
    pub fn expect_number(&mut self, kind: NumberKind) -> (r: Option<i64>)
        requires
            old(self).wf(),
        ensures
            final(self).wf(),
            final(self).text() == old(self).text(),
            match scan_number(old(self).text(), old(self).pos(), kind) {
                Some((v, end)) => r == Some(v as i64) && final(self).pos() == end && kind.holds(v)
                    && old(self).pos() < end,
                None => r is None && final(self).pos() == old(self).pos(),
            },
    {
        let ghost s = self.text();
        let ghost p = self.pos();
        proof {
            lemma_scan_number(s, p, kind);
        }
        let negative = self.peek(0) == Some('-');
        let start: usize = if negative {
            self.cursor + 1
        } else {
            self.cursor
        };
        let limit: u64 = match kind {
            NumberKind::Unsigned => if negative {
                0
            } else {
                0xFFFF_FFFF
            },
            NumberKind::Signed => if negative {
                0x8000_0000
            } else {
                0x7FFF_FFFF
            },
        };
        let mut end: usize = start;
        let mut value: u64 = 0;
        let mut go = true;
        while go && end < self.chars.len()
            invariant
                self.wf(),
                s == self.text(),
                p == self.pos(),
                negative == (0 <= p < s.len() && s[p] == '-'),
                start == (if negative { p + 1 } else { p }),
                start <= end <= s.len(),
                value == digits_value(s, start as int, end as int),
                value <= limit,
                limit <= 0xFFFF_FFFF,
                forall|m: int|
                    0 <= m ==> (kind.accepts(negative, m) <==> (m <= limit && !(negative && kind
                        == NumberKind::Unsigned))),
                number_end(s, start as int, negative, kind, start as int) == number_end(
                    s,
                    start as int,
                    negative,
                    kind,
                    end as int,
                ),
                !go ==> number_end(s, start as int, negative, kind, end as int) == end,
            decreases s.len() - end + (if go { 1int } else { 0int }),
        {
            let c = self.chars[end];
            if !('0' <= c && c <= '9') || (negative && kind == NumberKind::Unsigned) {
                go = false;
            } else {
                let d = (c as u32 - '0' as u32) as u64;
                let next = value * 10 + d;
                assert(next == digits_value(s, start as int, end + 1));
                if next > limit {
                    go = false;
                } else {
                    value = next;
                    end = end + 1;
                }
            }
        }
        let any = end > start;
        if !any {
            return None;
        }
        self.cursor = end;
        if negative {
            Some(-(value as i64))
        } else {
            Some(value as i64)
        }
    }

    /// Reads an identifier at the position: if it begins with a double quote, all up
    /// to the next one (which is consumed, not kept), else a non-empty run of
    /// non-whitespace characters. On failure the position stays.
    pub fn expect_ident(&mut self) -> (r: Option<String>)
        requires
            old(self).wf(),
        ensures
            final(self).wf(),
            final(self).text() == old(self).text(),
            match scan_ident(old(self).text(), old(self).pos()) {
                Some((v, end)) => r is Some && r->0@ == v && final(self).pos() == end,
                None => r is None && final(self).pos() == old(self).pos(),
            },
    {
        let ghost s = self.text();
        let ghost p = self.pos();
        let quoted = self.peek(0).is_some() && Parser::is_quote_char(self.peek(0).unwrap());
        let start: usize = if quoted {
            self.cursor + 1
        } else {
            self.cursor
        };
        let mut end: usize = start;
        while end < self.chars.len() && !((quoted && Parser::is_quote_char(self.chars[end])) || (!quoted
            && Parser::is_whitespace(self.chars[end])))
            invariant
                self.wf(),
                s == self.text(),
                p == self.pos(),
                quoted == (0 <= p < s.len() && is_quote(s[p])),
                start == (if quoted { p + 1 } else { p }),
                start <= end <= s.len(),
                quoted ==> quote_end(s, start as int) == quote_end(s, end as int),
                !quoted ==> word_end(s, start as int) == word_end(s, end as int),
            decreases s.len() - end,
        {
            end = end + 1;
        }
        let text = self.source.as_str().substring_char(start, end).to_owned();
        if quoted {
            assert(quote_end(s, end as int) == end);
            if end < self.chars.len() {
                self.cursor = end + 1;
            } else {
                self.cursor = end;
            }
            Some(text)
        } else {
            assert(word_end(s, end as int) == end);
            if end == start {
                None
            } else {
                self.cursor = end;
                Some(text)
            }
        }
    }

    /// Moves past a run of whitespace.
    pub fn skip_whitespace(&mut self)
        requires
            old(self).wf(),
        ensures
            final(self).wf(),
            final(self).text() == old(self).text(),
            final(self).pos() == skip_ws(old(self).text(), old(self).pos()),
    {
        let ghost s = self.text();
        let ghost p = self.pos();
        while self.cursor < self.chars.len() && Parser::is_whitespace(self.chars[self.cursor])
            invariant
                self.wf(),
                s == self.text(),
                p <= self.pos(),
                skip_ws(s, p) == skip_ws(s, self.pos()),
            decreases s.len() - self.pos(),
        {
            self.move_cursor(1);
        }
    }

    /// The whole text has been read.
    pub fn is_finished(&self) -> (r: bool)
        requires
            self.wf(),
        ensures
            r == (self.pos() == self.text().len()),
    {
        self.cursor == self.chars.len()
    }

    /// The length of the key at the position: the run of characters up to whitespace,
    /// `=` or the end.
    pub fn key_length(&self) -> (r: usize)
        requires
            self.wf(),
        ensures
            r == key_end(self.text(), self.pos()) - self.pos(),
    {
        let ghost s = self.text();
        let mut q: usize = self.cursor;
        while q < self.chars.len() && !Parser::is_whitespace(self.chars[q]) && self.chars[q] != '='
            invariant
                self.wf(),
                s == self.text(),
                self.cursor <= q <= s.len(),
                key_end(s, self.pos()) == key_end(s, q as int),
            decreases s.len() - q,
        {
            q = q + 1;
        }
        q - self.cursor
    }

    /// A `key=` assignment begins at the position.
    pub fn at_assignment(&self) -> (r: bool)
        requires
            self.wf(),
        ensures
            r == assignment_at(self.text(), self.pos()),
    {
        let n = self.key_length();
        proof {
            lemma_key_end(self.text(), self.pos());
        }
        n > 0 && self.peek(n) == Some('=')
    }

    fn move_cursor(&mut self, amount: usize)
        requires
            old(self).wf(),
            old(self).pos() + amount <= old(self).text().len(),
        ensures
            final(self).wf(),
            final(self).text() == old(self).text(),
            final(self).pos() == old(self).pos() + amount,
    {
        self.cursor = self.cursor + amount;
    }

    fn is_quote_char(c: char) -> (r: bool)
        ensures
            r == is_quote(c),
    {
        c as u32 == 0x22
    }

    fn is_whitespace(c: char) -> (r: bool)
        ensures
            r == is_space(c),
    {
        c == ' ' || c == '\t' || c == '\n' || c == '\r'
    }
}

/// A chain of literal alternatives tried in order at one scanner position: the first
/// that matches is taken, and the later ones are then not tried.
pub struct Expect {
    previous_expects: Vec<String>,
    correct: Option<String>,
}

impl Expect {
    /// The literals tried so far without success, in order.
    pub closed spec fn attempted(&self) -> Seq<Seq<char>> {
        self.previous_expects@.map_values(|x: String| x@)
    }

    /// The literal that matched, if one did.
    pub closed spec fn matched(&self) -> Option<Seq<char>> {
        match self.correct {
            Some(c) => Some(c@),
            None => None,
        }
    }

    /// An empty chain.
    pub fn new() -> (e: Expect)
        ensures
            e.attempted() == Seq::<Seq<char>>::empty(),
            e.matched() is None,
    {
        let e = Expect { previous_expects: Vec::new(), correct: None };
        proof {
            assert(e.attempted() =~= Seq::<Seq<char>>::empty());
        }
        e
    }

    /// Tries `expected` at the scanner's position unless an earlier alternative
    /// already matched; a match advances the scanner past it.
    pub fn or(self, expected: &str, parser: &mut Parser) -> (e: Expect)
        requires
            old(parser).wf(),
        ensures
            final(parser).wf(),
            final(parser).text() == old(parser).text(),
            self.matched() is Some ==> {
                &&& e.matched() == self.matched()
                &&& e.attempted() == self.attempted()
                &&& final(parser).pos() == old(parser).pos()
            },
            self.matched() is None ==> if literal_at(old(parser).text(), old(parser).pos(), expected@) {
                &&& e.matched() == Some(expected@)
                &&& e.attempted() == self.attempted()
                &&& final(parser).pos() == old(parser).pos() + expected@.len()
            } else {
                &&& e.matched() is None
                &&& e.attempted() == self.attempted().push(expected@)
                &&& final(parser).pos() == old(parser).pos()
            },
    {
        let mut e = self;
        if e.correct.is_some() {
            return e;
        }
        let owned = String::from_str(expected);
        if parser.match_literal(expected) {
            e.correct = Some(owned);
        } else {
            let ghost before = e.previous_expects@;
            e.previous_expects.push(owned);
            proof {
                assert(e.previous_expects@.map_values(|x: String| x@) =~= before.map_values(
                    |x: String| x@,
                ).push(expected@));
            }
        }
        e
    }

    /// The matched literal, or every literal that was tried.
    pub fn get(&self) -> (r: Result<String, Vec<String>>)
        ensures
            match r {
                Ok(m) => self.matched() == Some(m@),
                Err(tried) => self.matched() is None && tried@.map_values(|x: String| x@)
                    == self.attempted(),
            },
    {
        match &self.correct {
            Some(c) => Ok(c.clone()),
            None => {
                let mut tried: Vec<String> = Vec::new();
                let mut i: usize = 0;
                while i < self.previous_expects.len()
                    invariant
                        i <= self.previous_expects.len(),
                        tried@ == self.previous_expects@.subrange(0, i as int),
                    decreases self.previous_expects.len() - i,
                {
                    tried.push(self.previous_expects[i].clone());
                    proof {
                        assert(tried@ =~= self.previous_expects@.subrange(0, i + 1));
                    }
                    i = i + 1;
                }
                proof {
                    assert(tried@ =~= self.previous_expects@);
                }
                Err(tried)
            },
        }
    }
}

} // verus!
