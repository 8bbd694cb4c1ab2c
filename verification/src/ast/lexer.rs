use vstd::prelude::*;
use vstd::string::StrSliceExecFns;
use vstd::string::StringExecFns;

verus! {

/// Names the verdict of `char::is_numeric` on characters outside ASCII.
pub uninterp spec fn unicode_numeric(c: char) -> bool;

/// Names the verdict of `char::is_alphabetic` on characters outside ASCII.
pub uninterp spec fn unicode_alphabetic(c: char) -> bool;

/// Names the result of `str::to_lowercase`, a function of the characters alone.
pub uninterp spec fn lower_of(s: Seq<char>) -> Seq<char>;

/// A character that starts a numeric literal.
pub open spec fn is_digit_char(c: char) -> bool {
    if (c as int) < 128 {
        ('0' as int) <= (c as int) && (c as int) <= ('9' as int)
    } else {
        unicode_numeric(c)
    }
}

/// A character that starts or continues a word.
pub open spec fn is_alpha_char(c: char) -> bool {
    if (c as int) < 128 {
        (('a' as int) <= (c as int) && (c as int) <= ('z' as int)) || (('A' as int) <= (c as int)
            && (c as int) <= ('Z' as int))
    } else {
        unicode_alphabetic(c)
    }
}

/// A character that continues a numeric literal once one has started.
pub open spec fn is_num_cont(c: char) -> bool {
    c == '.' || is_digit_char(c)
}

/// Spec-level image of a token: payloads are character sequences, so that
/// contracts can speak of them with `Seq` reasoning.
pub enum Tok {
    /// A numeric literal, carried as the exact run of characters that was scanned.
    Number(Seq<char>),
    Plus,
    Asterix,
    Minus,
    Slash,
    Power,
    Sin,
    Cos,
    Tan,
    Pi,
    Log,
    /// An alphabetic word that matched no function or constant name; the
    /// payload is the lowercased word.
    Identifier(Seq<char>),
    OpenParen,
    CloseParen,
}

/// One lexical token. A numeric literal keeps the text it was scanned from;
/// turning that text into a machine number is left to unverified callers.
#[derive(Debug, Clone, PartialEq)]
pub enum TokenKind {
    Number(String),
    Plus,
    Asterix,
    Minus,
    Slash,
    Power,
    Sin,
    Cos,
    Tan,
    Pi,
    Log,
    Identifier(String),
    OpenParen,
    CloseParen,
}

impl View for TokenKind {
    type V = Tok;

    open spec fn view(&self) -> Tok {
        match self {
            TokenKind::Number(s) => Tok::Number(s@),
            TokenKind::Plus => Tok::Plus,
            TokenKind::Asterix => Tok::Asterix,
            TokenKind::Minus => Tok::Minus,
            TokenKind::Slash => Tok::Slash,
            TokenKind::Power => Tok::Power,
            TokenKind::Sin => Tok::Sin,
            TokenKind::Cos => Tok::Cos,
            TokenKind::Tan => Tok::Tan,
            TokenKind::Pi => Tok::Pi,
            TokenKind::Log => Tok::Log,
            TokenKind::Identifier(s) => Tok::Identifier(s@),
            TokenKind::OpenParen => Tok::OpenParen,
            TokenKind::CloseParen => Tok::CloseParen,
        }
    }
}

impl DeepView for TokenKind {
    type V = Tok;

    open spec fn deep_view(&self) -> Tok {
        self.view()
    }
}

pub open spec fn spec_is_number(t: Tok) -> bool {
    t is Number
}

pub open spec fn spec_is_operator(t: Tok) -> bool {
    match t {
        Tok::Asterix | Tok::Minus | Tok::Plus | Tok::Slash | Tok::Sin | Tok::Cos | Tok::Pi
            | Tok::Tan | Tok::Power | Tok::Log => true,
        _ => false,
    }
}

/// Precedence class of an operator token; parentheses share the highest
/// binding class used by the pop comparison, and `pi` stands above everything.
pub open spec fn spec_precedence(t: Tok) -> nat {
    match t {
        Tok::Plus | Tok::Minus => 1,
        Tok::Slash | Tok::Asterix => 2,
        Tok::OpenParen | Tok::CloseParen | Tok::Power => 3,
        Tok::Sin | Tok::Cos | Tok::Tan | Tok::Log => 4,
        Tok::Pi => 5,
        _ => 0,
    }
}

impl TokenKind {
    pub fn is_number(&self) -> (r: bool)
        ensures
            r == spec_is_number(self@),
    {
        matches!(self, TokenKind::Number(_))
    }

    pub fn is_operator(&self) -> (r: bool)
        ensures
            r == spec_is_operator(self@),
    {
        matches!(
            self,
            TokenKind::Asterix
                | TokenKind::Minus
                | TokenKind::Plus
                | TokenKind::Slash
                | TokenKind::Sin
                | TokenKind::Cos
                | TokenKind::Pi
                | TokenKind::Tan
                | TokenKind::Power
                | TokenKind::Log
        )
    }

    pub fn is_open_paren(&self) -> (r: bool)
        ensures
            r == (self@ is OpenParen),
    {
        matches!(self, TokenKind::OpenParen)
    }

    pub fn is_close_paren(&self) -> (r: bool)
        ensures
            r == (self@ is CloseParen),
    {
        matches!(self, TokenKind::CloseParen)
    }

    pub fn precedence(&self) -> (r: usize)
        requires
            !(self@ is Number),
            !(self@ is Identifier),
        ensures
            r == spec_precedence(self@),
    {
        match self {
            TokenKind::Plus | TokenKind::Minus => 1,
            TokenKind::Slash | TokenKind::Asterix => 2,
            TokenKind::OpenParen | TokenKind::CloseParen | TokenKind::Power => 3,
            TokenKind::Sin | TokenKind::Cos | TokenKind::Tan | TokenKind::Log => 4,
            _ => 5,
        }
    }

    /// A fresh kind with the same view.
    pub(crate) fn dup(&self) -> (r: TokenKind)
        ensures
            r@ == self@,
    {
        match self {
            TokenKind::Number(s) => TokenKind::Number(s.clone()),
            TokenKind::Plus => TokenKind::Plus,
            TokenKind::Asterix => TokenKind::Asterix,
            TokenKind::Minus => TokenKind::Minus,
            TokenKind::Slash => TokenKind::Slash,
            TokenKind::Power => TokenKind::Power,
            TokenKind::Sin => TokenKind::Sin,
            TokenKind::Cos => TokenKind::Cos,
            TokenKind::Tan => TokenKind::Tan,
            TokenKind::Pi => TokenKind::Pi,
            TokenKind::Log => TokenKind::Log,
            TokenKind::Identifier(s) => TokenKind::Identifier(s.clone()),
            TokenKind::OpenParen => TokenKind::OpenParen,
            TokenKind::CloseParen => TokenKind::CloseParen,
        }
    }
}

#[derive(Debug, Clone, PartialEq)]
pub struct Token {
    kind: TokenKind,
}

impl View for Token {
    type V = Tok;

    closed spec fn view(&self) -> Tok {
        self.kind@
    }
}

impl DeepView for Token {
    type V = Tok;

    open spec fn deep_view(&self) -> Tok {
        self.view()
    }
}

impl Token {
    pub fn new(kind: TokenKind) -> (r: Self)
        ensures
            r@ == kind@,
    {
        Self { kind }
    }

    pub fn kind(&self) -> (r: &TokenKind)
        ensures
            r@ == self@,
    {
        &self.kind
    }

    /// A fresh token with the same view.
    pub(crate) fn dup(&self) -> (r: Token)
        ensures
            r@ == self@,
    {
        Token::new(self.kind.dup())
    }
}

/// Relies on `char::is_numeric`: the ASCII digits are the only ASCII
/// characters in the numeric general categories; outside ASCII the verdict is
/// named `unicode_numeric`.
#[verifier::external_body]
fn char_is_numeric(c: char) -> (r: bool)
    ensures
        r == is_digit_char(c),
        (c as int) >= 128 ==> r == unicode_numeric(c),
{
    c.is_numeric()
}

/// Relies on `char::is_alphabetic`: the ASCII letters are the only ASCII
/// characters with the Alphabetic property; outside ASCII the verdict is named
/// `unicode_alphabetic`.
#[verifier::external_body]
fn char_is_alphabetic(c: char) -> (r: bool)
    ensures
        r == is_alpha_char(c),
        (c as int) >= 128 ==> r == unicode_alphabetic(c),
{
    c.is_alphabetic()
}

/// Relies on `str::to_lowercase`: the result depends on the characters alone,
/// and is named `lower_of`.
#[verifier::external_body]
fn lowercase(s: &str) -> (r: String)
    ensures
        r@ == lower_of(s@),
{
    s.to_lowercase()
}

/// Length of the longest prefix made of characters that continue a numeric
/// literal.
pub open spec fn num_cont_run(s: Seq<char>) -> nat
    decreases s.len(),
{
    if s.len() == 0 || !is_num_cont(s[0]) {
        0
    } else {
        1 + num_cont_run(s.skip(1))
    }
}

/// Length of the longest prefix made of word characters.
pub open spec fn alpha_run(s: Seq<char>) -> nat
    decreases s.len(),
{
    if s.len() == 0 || !is_alpha_char(s[0]) {
        0
    } else {
        1 + alpha_run(s.skip(1))
    }
}

proof fn lemma_num_cont_run_le(s: Seq<char>)
    ensures
        num_cont_run(s) <= s.len(),
    decreases s.len(),
{
    if s.len() != 0 && is_num_cont(s[0]) {
        lemma_num_cont_run_le(s.skip(1));
    }
}

proof fn lemma_alpha_run_le(s: Seq<char>)
    ensures
        alpha_run(s) <= s.len(),
    decreases s.len(),
{
    if s.len() != 0 && is_alpha_char(s[0]) {
        lemma_alpha_run_le(s.skip(1));
    }
}

/// A scan that saw continuation characters up to position `m`, and a
/// non-continuation (or the end) at `m`, found exactly the longest prefix.
proof fn lemma_num_cont_run_is(s: Seq<char>, m: nat)
    requires
        m <= s.len(),
        forall|k: int| 0 <= k < m ==> is_num_cont(s[k]),
        m == s.len() || !is_num_cont(s[m as int]),
    ensures
        num_cont_run(s) == m,
    decreases m,
{
    if m > 0 {
        lemma_num_cont_run_is(s.skip(1), (m - 1) as nat);
    }
}

proof fn lemma_alpha_run_is(s: Seq<char>, m: nat)
    requires
        m <= s.len(),
        forall|k: int| 0 <= k < m ==> is_alpha_char(s[k]),
        m == s.len() || !is_alpha_char(s[m as int]),
    ensures
        alpha_run(s) == m,
    decreases m,
{
    if m > 0 {
        lemma_alpha_run_is(s.skip(1), (m - 1) as nat);
    }
}

/// The token an alphabetic word stands for: the word is lowercased and held
/// against the function and constant table; a miss gives an identifier
/// carrying the lowercase word.
pub open spec fn word_tok(w: Seq<char>) -> Tok {
    let l = lower_of(w);
    if l == "sin"@ {
        Tok::Sin
    } else if l == "cos"@ {
        Tok::Cos
    } else if l == "tan"@ {
        Tok::Tan
    } else if l == "pi"@ {
        Tok::Pi
    } else if l == "log"@ {
        Tok::Log
    } else {
        Tok::Identifier(l)
    }
}

/// The token sequence of a text: spaces separate tokens, a digit starts the
/// longest run of digits and decimal points, a letter starts the longest
/// alphabetic word, the seven operator characters stand for themselves, and
/// any other character is skipped.
pub open spec fn lex_spec(s: Seq<char>) -> Seq<Tok>
    decreases s.len(),
    via lex_spec_decreases
{
    if s.len() == 0 {
        Seq::empty()
    } else {
        let c = s[0];
        if c == ' ' {
            lex_spec(s.skip(1))
        } else if is_digit_char(c) {
            let n = 1 + num_cont_run(s.skip(1));
            seq![Tok::Number(s.take(n as int))] + lex_spec(s.skip(n as int))
        } else if is_alpha_char(c) {
            let n = 1 + alpha_run(s.skip(1));
            seq![word_tok(s.take(n as int))] + lex_spec(s.skip(n as int))
        } else if c == '*' {
            seq![Tok::Asterix] + lex_spec(s.skip(1))
        } else if c == '-' {
            seq![Tok::Minus] + lex_spec(s.skip(1))
        } else if c == '+' {
            seq![Tok::Plus] + lex_spec(s.skip(1))
        } else if c == '/' {
            seq![Tok::Slash] + lex_spec(s.skip(1))
        } else if c == '^' {
            seq![Tok::Power] + lex_spec(s.skip(1))
        } else if c == '(' {
            seq![Tok::OpenParen] + lex_spec(s.skip(1))
        } else if c == ')' {
            seq![Tok::CloseParen] + lex_spec(s.skip(1))
        } else {
            lex_spec(s.skip(1))
        }
    }
}

#[via_fn]
proof fn lex_spec_decreases(s: Seq<char>) {
    if s.len() > 0 {
        lemma_num_cont_run_le(s.skip(1));
        lemma_alpha_run_le(s.skip(1));
    }
}

/// A character that no scanning rule consumes, in any position: it neither
/// starts a token nor continues a numeric or alphabetic run.
pub open spec fn inert_char(c: char) -> bool {
    skippable(c) && !is_num_cont(c) && !is_alpha_char(c)
}

proof fn lemma_num_cont_run_append(a: Seq<char>, t: Seq<char>)
    requires
        t.len() == 0 || !is_num_cont(t[0]),
    ensures
        num_cont_run(a + t) == num_cont_run(a),
    decreases a.len(),
{
    if a.len() == 0 {
        assert(a + t =~= t);
    } else if is_num_cont(a[0]) {
        assert((a + t).skip(1) =~= a.skip(1) + t);
        lemma_num_cont_run_append(a.skip(1), t);
    }
}

proof fn lemma_alpha_run_append(a: Seq<char>, t: Seq<char>)
    requires
        t.len() == 0 || !is_alpha_char(t[0]),
    ensures
        alpha_run(a + t) == alpha_run(a),
    decreases a.len(),
{
    if a.len() == 0 {
        assert(a + t =~= t);
    } else if is_alpha_char(a[0]) {
        assert((a + t).skip(1) =~= a.skip(1) + t);
        lemma_alpha_run_append(a.skip(1), t);
    }
}

proof fn lemma_lex_inert_only(t: Seq<char>)
    requires
        forall|k: int| 0 <= k < t.len() ==> inert_char(#[trigger] t[k]),
    ensures
        lex_spec(t) == Seq::<Tok>::empty(),
    decreases t.len(),
{
    if t.len() > 0 {
        lemma_lex_inert_only(t.skip(1));
    }
}

/// Appending characters that no scanning rule consumes leaves the token
/// sequence unchanged.
pub proof fn lemma_lex_append_inert(s: Seq<char>, t: Seq<char>)
    requires
        forall|k: int| 0 <= k < t.len() ==> inert_char(#[trigger] t[k]),
    ensures
        lex_spec(s + t) == lex_spec(s),
    decreases s.len(),
{
    if s.len() == 0 {
        assert(s + t =~= t);
        lemma_lex_inert_only(t);
    } else {
        let u = s + t;
        assert(u[0] == s[0]);
        let c = s[0];
        if c == ' ' {
            assert(u.skip(1) =~= s.skip(1) + t);
            lemma_lex_append_inert(s.skip(1), t);
        } else if is_digit_char(c) {
            assert(u.skip(1) =~= s.skip(1) + t);
            if t.len() > 0 {
                assert(!is_num_cont(t[0]));
            }
            lemma_num_cont_run_append(s.skip(1), t);
            let n = 1 + num_cont_run(s.skip(1));
            lemma_num_cont_run_le(s.skip(1));
            assert(u.take(n as int) =~= s.take(n as int));
            assert(u.skip(n as int) =~= s.skip(n as int) + t);
            lemma_lex_append_inert(s.skip(n as int), t);
        } else if is_alpha_char(c) {
            assert(u.skip(1) =~= s.skip(1) + t);
            if t.len() > 0 {
                assert(!is_alpha_char(t[0]));
            }
            lemma_alpha_run_append(s.skip(1), t);
            let n = 1 + alpha_run(s.skip(1));
            lemma_alpha_run_le(s.skip(1));
            assert(u.take(n as int) =~= s.take(n as int));
            assert(u.skip(n as int) =~= s.skip(n as int) + t);
            lemma_lex_append_inert(s.skip(n as int), t);
        } else {
            assert(u.skip(1) =~= s.skip(1) + t);
            lemma_lex_append_inert(s.skip(1), t);
        }
    }
}

/// A leading or a trailing space never affects the token sequence: spaces
/// only separate tokens.
pub proof fn lemma_surrounding_spaces_ignored(s: Seq<char>)
    ensures
        lex_spec(seq![' '] + s) == lex_spec(s),
        lex_spec(s + seq![' ']) == lex_spec(s),
{
    assert((seq![' '] + s)[0] == ' ');
    assert((seq![' '] + s).skip(1) =~= s);
    assert(inert_char(' '));
    lemma_lex_append_inert(s, seq![' ']);
}

/// Scans text into tokens. The cursor fields live only for the duration of
/// one `lex` call and are reset when it returns.
#[derive(Debug)]
pub struct Lexer {
    current_pos: usize,
    len: usize,
}

/// A character at which the scanner emits nothing: a space between tokens, or
/// a character no scanning rule recognizes.
pub open spec fn skippable(c: char) -> bool {
    c == ' ' || (!is_digit_char(c) && !is_alpha_char(c) && c != '*' && c != '-' && c != '+' && c
        != '/' && c != '^' && c != '(' && c != ')')
}

proof fn lemma_lex_skip_range(s: Seq<char>, i: int, j: int)
    requires
        0 <= i <= j <= s.len(),
        forall|k: int| i <= k < j ==> skippable(s[k]),
    ensures
        lex_spec(s.skip(i)) == lex_spec(s.skip(j)),
    decreases j - i,
{
    if i < j {
        assert(s.skip(i)[0] == s[i]);
        assert(s.skip(i).skip(1) =~= s.skip(i + 1));
        lemma_lex_skip_range(s, i + 1, j);
    }
}

impl Lexer {
    /// The scan cursor, as a position into the character sequence.
    pub closed spec fn pos(&self) -> nat {
        self.current_pos as nat
    }

    /// The character count of the text the cursor runs over.
    pub closed spec fn limit(&self) -> nat {
        self.len as nat
    }

    pub fn new() -> (r: Self)
        ensures
            r.pos() == 0,
            r.limit() == 0,
    {
        Self { current_pos: 0, len: 0 }
    }

    /// The character under the cursor, if any; the cursor does not move.
    fn peek(&self, input: &str) -> (r: Option<char>)
        requires
            self.limit() == input@.len(),
        ensures
            self.pos() < self.limit() ==> r == Some(input@[self.pos() as int]),
            self.pos() >= self.limit() ==> r is None,
    {
        if self.current_pos < self.len {
            Some(input.get_char(self.current_pos))
        } else {
            None
        }
    }

    /// The character under the cursor, if any; the cursor moves past it.
    fn next_char(&mut self, input: &str) -> (r: Option<char>)
        requires
            old(self).limit() == input@.len(),
        ensures
            final(self).limit() == old(self).limit(),
            old(self).pos() < old(self).limit() ==> r == Some(input@[old(self).pos() as int])
                && final(self).pos() == old(self).pos() + 1,
            old(self).pos() >= old(self).limit() ==> r is None && final(self).pos() == old(
                self,
            ).pos(),
    {
        if self.current_pos < self.len {
            let c = input.get_char(self.current_pos);
            self.current_pos = self.current_pos + 1;
            Some(c)
        } else {
            None
        }
    }

    /// Moves the cursor past a run of the target character.
    fn skip_while(&mut self, input: &str, target: char)
        requires
            old(self).limit() == input@.len(),
            old(self).pos() <= old(self).limit(),
        ensures
            final(self).limit() == old(self).limit(),
            old(self).pos() <= final(self).pos() <= final(self).limit(),
            forall|k: int| old(self).pos() <= k < final(self).pos() ==> input@[k] == target,
            final(self).pos() == final(self).limit() || input@[final(self).pos() as int]
                != target,
    {
        while self.current_pos < self.len
            invariant
                self.limit() == input@.len(),
                old(self).pos() <= self.pos() <= self.limit(),
                forall|k: int| old(self).pos() <= k < self.pos() ==> input@[k] == target,
            ensures
                self.limit() == input@.len(),
                old(self).pos() <= self.pos() <= self.limit(),
                forall|k: int| old(self).pos() <= k < self.pos() ==> input@[k] == target,
                self.pos() == self.limit() || input@[self.pos() as int] != target,
            decreases self.limit() - self.pos(),
        {
            let c = input.get_char(self.current_pos);
            if c != target {
                break;
            }
            self.current_pos = self.current_pos + 1;
        }
    }

    /// The next token at or after the cursor, skipping spaces and unrecognized
    /// characters; `None` once the text is exhausted.
    fn next_token(&mut self, input: &str) -> (r: Option<Token>)
        requires
            old(self).limit() == input@.len(),
            old(self).pos() <= old(self).limit(),
        ensures
            final(self).limit() == old(self).limit(),
            final(self).pos() <= final(self).limit(),
            match r {
                Some(t) => {
                    &&& lex_spec(input@.skip(old(self).pos() as int)) == seq![t@] + lex_spec(
                        input@.skip(final(self).pos() as int),
                    )
                    &&& final(self).pos() > old(self).pos()
                },
                None => {
                    &&& lex_spec(input@.skip(old(self).pos() as int)) == Seq::<Tok>::empty()
                    &&& final(self).pos() == final(self).limit()
                },
            },
    {
        while self.current_pos < self.len
            invariant
                self.limit() == input@.len(),
                old(self).limit() == input@.len(),
                old(self).pos() <= self.pos() <= self.limit(),
                lex_spec(input@.skip(old(self).pos() as int)) == lex_spec(
                    input@.skip(self.pos() as int),
                ),
            ensures
                self.limit() == input@.len(),
                old(self).pos() <= self.pos() <= self.limit(),
                self.pos() == self.limit(),
                lex_spec(input@.skip(old(self).pos() as int)) == lex_spec(
                    input@.skip(self.pos() as int),
                ),
            decreases self.limit() - self.pos(),
        {
            let ghost p0 = self.pos() as int;
            self.skip_while(input, ' ');
            proof {
                lemma_lex_skip_range(input@, p0, self.pos() as int);
            }
            let c = match self.next_char(input) {
                Some(c) => c,
                None => {
                    break;
                },
            };
            let start = self.current_pos - 1;
            let ghost i = start as int;
            let ghost s = input@;
            let ghost rem = s.skip(i);
            assert(rem[0] == s[i] && s[i] == c);
            if char_is_numeric(c) {
                while self.current_pos < self.len
                    invariant
                        self.limit() == input@.len(),
                        0 <= i,
                        i + 1 <= self.pos() <= self.limit(),
                        forall|k: int| i + 1 <= k < self.pos() ==> is_num_cont(input@[k]),
                    ensures
                        self.limit() == input@.len(),
                        0 <= i,
                        i + 1 <= self.pos() <= self.limit(),
                        forall|k: int| i + 1 <= k < self.pos() ==> is_num_cont(input@[k]),
                        self.pos() == self.limit() || !is_num_cont(input@[self.pos() as int]),
                    decreases self.limit() - self.pos(),
                {
                    let c2 = match self.peek(input) {
                        Some(x) => x,
                        None => {
                            break;
                        },
                    };
                    if c2 == '.' || char_is_numeric(c2) {
                        self.current_pos = self.current_pos + 1;
                    } else {
                        break;
                    }
                }
                let j = self.current_pos;
                proof {
                    assert(s.skip(i + 1) =~= rem.skip(1));
                    assert forall|k: int| 0 <= k < j - i - 1 implies is_num_cont(
                        #[trigger] s.skip(i + 1)[k],
                    ) by {
                        assert(s.skip(i + 1)[k] == s[i + 1 + k]);
                    }
                    lemma_num_cont_run_is(s.skip(i + 1), (j - i - 1) as nat);
                    assert(num_cont_run(rem.skip(1)) == j - i - 1);
                    assert(rem.take(j - i) =~= s.subrange(i, j as int));
                    assert(rem.skip(j - i) =~= s.skip(j as int));
                    assert(lex_spec(rem) == seq![Tok::Number(s.subrange(i, j as int))] + lex_spec(
                        s.skip(j as int),
                    ));
                }
                let lit = String::from_str(input.substring_char(start, j));
                return Some(Token::new(TokenKind::Number(lit)));
            } else if char_is_alphabetic(c) {
                while self.current_pos < self.len
                    invariant
                        self.limit() == input@.len(),
                        0 <= i,
                        i + 1 <= self.pos() <= self.limit(),
                        forall|k: int| i + 1 <= k < self.pos() ==> is_alpha_char(input@[k]),
                    ensures
                        self.limit() == input@.len(),
                        0 <= i,
                        i + 1 <= self.pos() <= self.limit(),
                        forall|k: int| i + 1 <= k < self.pos() ==> is_alpha_char(input@[k]),
                        self.pos() == self.limit() || !is_alpha_char(input@[self.pos() as int]),
                    decreases self.limit() - self.pos(),
                {
                    let c2 = match self.peek(input) {
                        Some(x) => x,
                        None => {
                            break;
                        },
                    };
                    if char_is_alphabetic(c2) {
                        self.current_pos = self.current_pos + 1;
                    } else {
                        break;
                    }
                }
                let j = self.current_pos;
                proof {
                    assert(s.skip(i + 1) =~= rem.skip(1));
                    assert forall|k: int| 0 <= k < j - i - 1 implies is_alpha_char(
                        #[trigger] s.skip(i + 1)[k],
                    ) by {
                        assert(s.skip(i + 1)[k] == s[i + 1 + k]);
                    }
                    lemma_alpha_run_is(s.skip(i + 1), (j - i - 1) as nat);
                    assert(rem.take(j - i) =~= s.subrange(i, j as int));
                    assert(rem.skip(j - i) =~= s.skip(j as int));
                    assert(lex_spec(rem) == seq![word_tok(s.subrange(i, j as int))] + lex_spec(
                        s.skip(j as int),
                    ));
                }
                let word = input.substring_char(start, j);
                let lowered = lowercase(word);
                let kind = if lowered.eq(&String::from_str("sin")) {
                    TokenKind::Sin
                } else if lowered.eq(&String::from_str("cos")) {
                    TokenKind::Cos
                } else if lowered.eq(&String::from_str("tan")) {
                    TokenKind::Tan
                } else if lowered.eq(&String::from_str("pi")) {
                    TokenKind::Pi
                } else if lowered.eq(&String::from_str("log")) {
                    TokenKind::Log
                } else {
                    TokenKind::Identifier(lowered)
                };
                return Some(Token::new(kind));
            } else {
                let op = match c {
                    '*' => Some(TokenKind::Asterix),
                    '-' => Some(TokenKind::Minus),
                    '+' => Some(TokenKind::Plus),
                    '/' => Some(TokenKind::Slash),
                    '^' => Some(TokenKind::Power),
                    '(' => Some(TokenKind::OpenParen),
                    ')' => Some(TokenKind::CloseParen),
                    _ => None,
                };
                proof {
                    assert(rem.skip(1) =~= s.skip(i + 1));
                }
                match op {
                    Some(kind) => {
                        return Some(Token::new(kind));
                    },
                    None => {
                        // an unrecognized character produces no token
                        proof {
                            assert(skippable(c));
                            assert(lex_spec(rem) == lex_spec(s.skip(i + 1)));
                        }
                    },
                }
            }
        }
        None
    }

    /// Scans the whole text into its token sequence. The cursor is reset
    /// before the scan and again before returning.
    pub fn lex(&mut self, input: &str) -> (r: Vec<Token>)
        ensures
            r.deep_view() == lex_spec(input@),
            final(self).pos() == 0,
    {
        let n = input.unicode_len();
        self.len = n;
        self.current_pos = 0;
        let mut token_stream: Vec<Token> = Vec::new();
        proof {
            assert(input@.skip(0) =~= input@);
        }
        loop
            invariant
                self.limit() == input@.len(),
                self.pos() <= self.limit(),
                token_stream.deep_view() + lex_spec(input@.skip(self.pos() as int)) == lex_spec(
                    input@,
                ),
            ensures
                token_stream.deep_view() == lex_spec(input@),
            decreases self.limit() - self.pos(),
        {
            let ghost dv0 = token_stream.deep_view();
            match self.next_token(input) {
                Some(token) => {
                    let ghost t = token@;
                    token_stream.push(token);
                    proof {
                        assert(token_stream.deep_view() =~= dv0.push(t));
                        assert(dv0.push(t) + lex_spec(input@.skip(self.pos() as int)) =~= dv0 + (
                        seq![t] + lex_spec(input@.skip(self.pos() as int))));
                    }
                },
                None => {
                    proof {
                        assert(dv0 + Seq::<Tok>::empty() =~= dv0);
                    }
                    break;
                },
            }
        }
        self.current_pos = 0;
        token_stream
    }
}

} // verus!
