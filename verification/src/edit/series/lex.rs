use vstd::prelude::*;
use vstd::string::StringSliceAdditionalSpecFns;
use vstd::utf8::*;

verus! {

/// Token types and syntax node kinds for quilt series files
#[derive(Debug, Clone, Copy, PartialEq, Eq, PartialOrd, Ord, Hash, Structural)]
#[allow(non_camel_case_types)]
pub enum SyntaxKind {
    // Tokens
    /// Hash/pound sign for comments
    HASH,
    /// Space character
    SPACE,
    /// Tab character
    TAB,
    /// Newline character
    NEWLINE,
    /// Whitespace characters (spaces and tabs)
    WHITESPACE,
    /// Patch file name/path
    PATCH_NAME,
    /// Patch option (e.g., -p1, --reverse)
    OPTION,
    /// Text content (for comments)
    TEXT,
    /// Error token
    ERROR,
    /// End of file
    EOF,
    // Composite nodes
    /// Root node of the syntax tree
    ROOT,
    /// A series entry (either patch or comment)
    SERIES_ENTRY,
    /// A patch entry with name and options
    PATCH_ENTRY,
    /// A comment line
    COMMENT_LINE,
    /// Patch options section
    OPTIONS,
    /// Individual option
    OPTION_ITEM,
}

impl SyntaxKind {
    /// The raw number of the kind, its place in the declaration counted from 0.
    pub open spec fn code(self) -> u16 {
        match self {
            SyntaxKind::HASH => 0,
            SyntaxKind::SPACE => 1,
            SyntaxKind::TAB => 2,
            SyntaxKind::NEWLINE => 3,
            SyntaxKind::WHITESPACE => 4,
            SyntaxKind::PATCH_NAME => 5,
            SyntaxKind::OPTION => 6,
            SyntaxKind::TEXT => 7,
            SyntaxKind::ERROR => 8,
            SyntaxKind::EOF => 9,
            SyntaxKind::ROOT => 10,
            SyntaxKind::SERIES_ENTRY => 11,
            SyntaxKind::PATCH_ENTRY => 12,
            SyntaxKind::COMMENT_LINE => 13,
            SyntaxKind::OPTIONS => 14,
            SyntaxKind::OPTION_ITEM => 15,
        }
    }

    /// The raw number of the kind, the tag that rowan stores for it
    /// (`rowan::SyntaxKind(kind.raw())`).
    pub fn raw(self) -> (raw: u16)
        ensures
            raw == self.code(),
    {
        match self {
            SyntaxKind::HASH => 0,
            SyntaxKind::SPACE => 1,
            SyntaxKind::TAB => 2,
            SyntaxKind::NEWLINE => 3,
            SyntaxKind::WHITESPACE => 4,
            SyntaxKind::PATCH_NAME => 5,
            SyntaxKind::OPTION => 6,
            SyntaxKind::TEXT => 7,
            SyntaxKind::ERROR => 8,
            SyntaxKind::EOF => 9,
            SyntaxKind::ROOT => 10,
            SyntaxKind::SERIES_ENTRY => 11,
            SyntaxKind::PATCH_ENTRY => 12,
            SyntaxKind::COMMENT_LINE => 13,
            SyntaxKind::OPTIONS => 14,
            SyntaxKind::OPTION_ITEM => 15,
        }
    }
}

/// The raw numbers of the kinds, as rowan stores them: the kinds in order of
/// declaration are numbered 0 to 15, so no two kinds share a number.
pub proof fn lemma_kind_numbers()
    ensures
        SyntaxKind::HASH.code() == 0,
        SyntaxKind::SPACE.code() == 1,
        SyntaxKind::TAB.code() == 2,
        SyntaxKind::NEWLINE.code() == 3,
        SyntaxKind::WHITESPACE.code() == 4,
        SyntaxKind::PATCH_NAME.code() == 5,
        SyntaxKind::OPTION.code() == 6,
        SyntaxKind::TEXT.code() == 7,
        SyntaxKind::ERROR.code() == 8,
        SyntaxKind::EOF.code() == 9,
        SyntaxKind::ROOT.code() == 10,
        SyntaxKind::SERIES_ENTRY.code() == 11,
        SyntaxKind::PATCH_ENTRY.code() == 12,
        SyntaxKind::COMMENT_LINE.code() == 13,
        SyntaxKind::OPTIONS.code() == 14,
        SyntaxKind::OPTION_ITEM.code() == 15,
        forall|a: SyntaxKind, b: SyntaxKind| #[trigger] a.code() == #[trigger] b.code() ==> a == b,
        forall|a: SyntaxKind| #[trigger] a.code() < 16,
{
}

/// The byte of `#`, which opens a comment.
pub const HASH_BYTE: u8 = 0x23;

/// The byte of a space.
pub const SPACE_BYTE: u8 = 0x20;

/// The byte of a tab.
pub const TAB_BYTE: u8 = 0x09;

/// The byte of a newline.
pub const NEWLINE_BYTE: u8 = 0x0a;

/// The byte of `-`, which begins an option.
pub const DASH_BYTE: u8 = 0x2d;

/// A byte that ends a patch name or an option: space, tab or newline.
pub open spec fn ends_word(b: u8) -> bool {
    b == SPACE_BYTE || b == TAB_BYTE || b == NEWLINE_BYTE
}

/// The first index at or after `pos` that holds a space, tab or newline,
/// or the length of `bytes` when there is none.
pub open spec fn word_end(bytes: Seq<u8>, pos: int) -> int
    decreases bytes.len() - pos,
{
    if pos >= bytes.len() {
        bytes.len() as int
    } else if ends_word(bytes[pos]) {
        pos
    } else {
        word_end(bytes, pos + 1)
    }
}

/// The first index at or after `pos` that holds a newline, or the length of
/// `bytes` when there is none.
pub open spec fn line_end(bytes: Seq<u8>, pos: int) -> int
    decreases bytes.len() - pos,
{
    if pos >= bytes.len() {
        bytes.len() as int
    } else if bytes[pos] == NEWLINE_BYTE {
        pos
    } else {
        line_end(bytes, pos + 1)
    }
}

pub(crate) proof fn lemma_word_end_bounds(bytes: Seq<u8>, pos: int)
    requires
        0 <= pos <= bytes.len(),
    ensures
        pos <= word_end(bytes, pos) <= bytes.len(),
        pos < bytes.len() && !ends_word(bytes[pos]) ==> pos < word_end(bytes, pos),
    decreases bytes.len() - pos,
{
    if pos < bytes.len() && !ends_word(bytes[pos]) {
        lemma_word_end_bounds(bytes, pos + 1);
    }
}

pub(crate) proof fn lemma_line_end_bounds(bytes: Seq<u8>, pos: int)
    requires
        0 <= pos <= bytes.len(),
    ensures
        pos <= line_end(bytes, pos) <= bytes.len(),
        pos < bytes.len() && bytes[pos] != NEWLINE_BYTE ==> pos < line_end(bytes, pos),
    decreases bytes.len() - pos,
{
    if pos < bytes.len() && bytes[pos] != NEWLINE_BYTE {
        lemma_line_end_bounds(bytes, pos + 1);
    }
}

/// Whether a patch name or an option may begin at `pos`: at the start of the
/// input, or right after a newline, a space or a tab.
pub open spec fn at_word_start(bytes: Seq<u8>, pos: int) -> bool {
    pos == 0 || ends_word(bytes[pos - 1])
}

/// The token that begins at `pos` when a comment is (or is not) open there:
/// its kind, the index where it ends, and whether a comment is open after it.
pub open spec fn token_at(bytes: Seq<u8>, pos: int, in_comment: bool) -> (SyntaxKind, int, bool) {
    let b = bytes[pos];
    if b == HASH_BYTE {
        (SyntaxKind::HASH, pos + 1, true)
    } else if b == SPACE_BYTE {
        (SyntaxKind::SPACE, pos + 1, in_comment)
    } else if b == TAB_BYTE {
        (SyntaxKind::TAB, pos + 1, in_comment)
    } else if b == NEWLINE_BYTE {
        (SyntaxKind::NEWLINE, pos + 1, false)
    } else if in_comment {
        (SyntaxKind::TEXT, line_end(bytes, pos), in_comment)
    } else if at_word_start(bytes, pos) {
        if b == DASH_BYTE {
            (SyntaxKind::OPTION, word_end(bytes, pos), in_comment)
        } else {
            (SyntaxKind::PATCH_NAME, word_end(bytes, pos), in_comment)
        }
    } else {
        (SyntaxKind::TEXT, line_end(bytes, pos), in_comment)
    }
}

/// Every token covers at least one byte and ends within the input.
pub proof fn lemma_token_advances(bytes: Seq<u8>, pos: int, in_comment: bool)
    requires
        0 <= pos < bytes.len(),
    ensures
        pos < token_at(bytes, pos, in_comment).1 <= bytes.len(),
{
    lemma_word_end_bounds(bytes, pos);
    lemma_line_end_bounds(bytes, pos);
}

/// The tokens from `pos` to the end of `bytes`, each as its kind and the
/// range of bytes it covers, closed by an empty `EOF` token at the end.
pub open spec fn lex_from(bytes: Seq<u8>, pos: int, in_comment: bool) -> Seq<(SyntaxKind, int, int)>
    decreases bytes.len() - pos,
{
    if !(0 <= pos < bytes.len()) {
        seq![(SyntaxKind::EOF, bytes.len() as int, bytes.len() as int)]
    } else {
        let (kind, end, after) = token_at(bytes, pos, in_comment);
        proof {
            lemma_token_advances(bytes, pos, in_comment);
        }
        seq![(kind, pos, end)] + lex_from(bytes, end, after)
    }
}

/// The tokens of a whole series file, lexed from its first byte.
pub open spec fn lex(bytes: Seq<u8>) -> Seq<(SyntaxKind, int, int)> {
    lex_from(bytes, 0, false)
}

/// A token handed out by the lexer has the kind of `span` and the text of
/// the bytes that `span` covers.
pub open spec fn token_matches<'a>(token: (SyntaxKind, &'a str), bytes: Seq<u8>, span: (SyntaxKind, int, int)) -> bool {
    &&& token.0 == span.0
    &&& token.1.spec_bytes() == bytes.subrange(span.1, span.2)
    &&& token.1@ == decode_utf8(bytes.subrange(span.1, span.2))
}

/// The tokens match the spans one for one.
pub open spec fn tokens_match<'a>(
    tokens: Seq<(SyntaxKind, &'a str)>,
    bytes: Seq<u8>,
    spans: Seq<(SyntaxKind, int, int)>,
) -> bool {
    &&& tokens.len() == spans.len()
    &&& forall|i: int| 0 <= i < tokens.len() ==> token_matches(#[trigger] tokens[i], bytes, spans[i])
}

pub(crate) proof fn lemma_word_end_skip(bytes: Seq<u8>, a: int, b: int)
    requires
        0 <= a <= b <= bytes.len(),
        forall|i: int| a <= i < b ==> !ends_word(#[trigger] bytes[i]),
    ensures
        word_end(bytes, a) == word_end(bytes, b),
    decreases b - a,
{
    if a < b {
        lemma_word_end_skip(bytes, a + 1, b);
    }
}

pub(crate) proof fn lemma_line_end_skip(bytes: Seq<u8>, a: int, b: int)
    requires
        0 <= a <= b <= bytes.len(),
        forall|i: int| a <= i < b ==> #[trigger] bytes[i] != NEWLINE_BYTE,
    ensures
        line_end(bytes, a) == line_end(bytes, b),
    decreases b - a,
{
    if a < b {
        lemma_line_end_skip(bytes, a + 1, b);
    }
}

/// In valid UTF-8, a byte below 0x80 is a whole character, so the byte after
/// it starts a character (or is the end).
pub(crate) proof fn lemma_boundary_after_ascii(bytes: Seq<u8>, p: int)
    requires
        valid_utf8(bytes),
        0 <= p < bytes.len(),
        is_char_boundary(bytes, p),
        bytes[p] < 0x80,
    ensures
        p + 1 < bytes.len() ==> !is_continuation_byte(bytes[p + 1]),
        is_char_boundary(bytes, p + 1),
{
    valid_utf8_split(bytes, p);
    let suffix = bytes.subrange(p, bytes.len() as int);
    assert(suffix[0] == bytes[p]);
    assert(length_of_first_scalar(suffix) == 1);
    let rest = pop_first_scalar(suffix);
    assert(rest =~= bytes.subrange(p + 1, bytes.len() as int));
    if p + 1 < bytes.len() {
        assert(rest[0] == bytes[p + 1]);
        assert(valid_utf8(rest));
        reveal_with_fuel(valid_utf8, 2);
        assert(valid_first_scalar(rest));
        is_char_boundary_iff_not_is_continuation_byte(bytes, p + 1);
    } else {
        is_char_boundary_start_end_of_seq(bytes);
    }
}

/// A position in valid UTF-8 that is the end or does not hold a
/// continuation byte starts a character.
pub(crate) proof fn lemma_boundary_at(bytes: Seq<u8>, p: int)
    requires
        valid_utf8(bytes),
        0 <= p <= bytes.len(),
        p < bytes.len() ==> !is_continuation_byte(bytes[p]),
    ensures
        is_char_boundary(bytes, p),
{
    if p < bytes.len() {
        is_char_boundary_iff_not_is_continuation_byte(bytes, p);
    } else {
        is_char_boundary_start_end_of_seq(bytes);
    }
}

/// A character boundary at or after `start` is one in the bytes from `start` on.
pub(crate) proof fn lemma_boundary_in_suffix(bytes: Seq<u8>, start: int, end: int)
    requires
        valid_utf8(bytes),
        0 <= start <= end <= bytes.len(),
        is_char_boundary(bytes, start),
        is_char_boundary(bytes, end),
    ensures
        valid_utf8(bytes.subrange(start, bytes.len() as int)),
        is_char_boundary(bytes.subrange(start, bytes.len() as int), end - start),
{
    valid_utf8_split(bytes, start);
    let rest = bytes.subrange(start, bytes.len() as int);
    if end < bytes.len() {
        is_char_boundary_iff_not_is_continuation_byte(bytes, end);
        assert(rest[end - start] == bytes[end]);
        is_char_boundary_iff_not_is_continuation_byte(rest, end - start);
    } else {
        is_char_boundary_start_end_of_seq(rest);
    }
}

/// A byte position that the lexer may stand on: within the input and at
/// the start of a character (or at the very end).
pub open spec fn is_lexer_position(bytes: Seq<u8>, pos: int) -> bool {
    0 <= pos <= bytes.len() && is_char_boundary(bytes, pos)
}

/// Lexer for quilt series files
pub struct Lexer<'a> {
    input: &'a str,
    byte_pos: usize,
    in_comment: bool,
}

impl<'a> Lexer<'a> {
    /// The text being lexed.
    pub closed spec fn source(&self) -> &'a str {
        self.input
    }

    /// The UTF-8 bytes of the text being lexed.
    pub open spec fn bytes(&self) -> Seq<u8> {
        self.source().spec_bytes()
    }

    /// The byte position where the next token starts.
    pub closed spec fn pos(&self) -> int {
        self.byte_pos as int
    }

    /// Whether the lexer is inside a comment line.
    pub closed spec fn in_comment(&self) -> bool {
        self.in_comment
    }

    /// The position is one the lexer may stand on.
    pub open spec fn wf(&self) -> bool {
        is_lexer_position(self.bytes(), self.pos())
    }

    /// Every lexer, from `new` on and after every call, stands within its
    /// input on a character boundary.
    #[verifier::type_invariant]
    spec fn stands_on_boundary(&self) -> bool {
        self.wf()
    }

    /// Create a new lexer for the given input text
    pub fn new(input: &'a str) -> (lexer: Self)
        ensures
            lexer.source() == input,
            lexer.pos() == 0,
            !lexer.in_comment(),
            lexer.wf(),
    {
        proof {
            encode_utf8_valid_utf8(input@);
            is_char_boundary_start_end_of_seq(input.spec_bytes());
        }
        Self { input, byte_pos: 0, in_comment: false }
    }

    /// Tokenize the entire input
    pub fn tokenize(&mut self) -> (tokens: Vec<(SyntaxKind, &'a str)>)
        ensures
            final(self).wf(),
            final(self).source() == old(self).source(),
            final(self).pos() == old(self).bytes().len(),
            tokens_match(
                tokens@,
                old(self).bytes(),
                lex_from(old(self).bytes(), old(self).pos(), old(self).in_comment()),
            ),
    {
        proof {
            use_type_invariant(&*self);
        }
        let ghost bytes = self.bytes();
        let ghost all = lex_from(bytes, self.pos(), self.in_comment());
        let ghost mut spans: Seq<(SyntaxKind, int, int)> = seq![];
        let mut tokens = Vec::new();

        while self.byte_pos < self.input.as_bytes().len()
            invariant
                self.wf(),
                self.bytes() == bytes,
                self.source() == old(self).source(),
                tokens_match(tokens@, bytes, spans),
                spans + lex_from(bytes, self.pos(), self.in_comment()) == all,
            decreases bytes.len() - self.pos(),
        {
            let ghost pos = self.pos();
            let ghost in_comment = self.in_comment();
            proof {
                lemma_token_advances(bytes, pos, in_comment);
            }
            let token = self.next_token();
            let ghost span = (token.0, pos, self.pos());
            proof {
                encode_utf8_decode_utf8(token.1@);
                assert(lex_from(bytes, pos, in_comment) == seq![span] + lex_from(
                    bytes,
                    self.pos(),
                    self.in_comment(),
                ));
                assert(spans.push(span) + lex_from(bytes, self.pos(), self.in_comment()) =~= spans
                    + lex_from(bytes, pos, in_comment));
                spans = spans.push(span);
            }
            tokens.push(token);
        }
        proof {
            reveal_strlit("");
            encode_utf8_decode_utf8(""@);
            assert(lex_from(bytes, self.pos(), self.in_comment()) == seq![
                (SyntaxKind::EOF, bytes.len() as int, bytes.len() as int),
            ]);
            assert(bytes.subrange(bytes.len() as int, bytes.len() as int) =~= Seq::<u8>::empty());
            assert(spans.push((SyntaxKind::EOF, bytes.len() as int, bytes.len() as int)) =~= all);
        }
        tokens.push((SyntaxKind::EOF, ""));
        tokens
    }

    fn next_token(&mut self) -> (token: (SyntaxKind, &'a str))
        requires
            old(self).wf(),
        ensures
            final(self).wf(),
            final(self).source() == old(self).source(),
            old(self).pos() <= final(self).pos(),
            old(self).pos() < old(self).bytes().len() ==> ({
                let (kind, end, after) = token_at(old(self).bytes(), old(self).pos(), old(self).in_comment());
                &&& token.0 == kind
                &&& token.1.spec_bytes() == old(self).bytes().subrange(old(self).pos(), end)
                &&& final(self).pos() == end
                &&& final(self).in_comment() == after
            }),
            old(self).pos() >= old(self).bytes().len() ==> {
                &&& token.0 == SyntaxKind::ERROR
                &&& token.1@ == Seq::<char>::empty()
                &&& final(self).pos() == old(self).pos()
                &&& final(self).in_comment() == old(self).in_comment()
            },
    {
        proof {
            if self.pos() < self.bytes().len() {
                lemma_token_advances(self.bytes(), self.pos(), self.in_comment());
            }
        }
        let ch = self.current_byte();

        match ch {
            Some(HASH_BYTE) => {
                let start = self.byte_pos;
                self.advance();
                self.in_comment = true;
                (SyntaxKind::HASH, self.slice(start, self.byte_pos))
            },
            Some(SPACE_BYTE) => {
                let start = self.byte_pos;
                self.advance();
                (SyntaxKind::SPACE, self.slice(start, self.byte_pos))
            },
            Some(TAB_BYTE) => {
                let start = self.byte_pos;
                self.advance();
                (SyntaxKind::TAB, self.slice(start, self.byte_pos))
            },
            Some(NEWLINE_BYTE) => {
                let start = self.byte_pos;
                self.advance();
                self.in_comment = false;
                (SyntaxKind::NEWLINE, self.slice(start, self.byte_pos))
            },
            Some(_) => {
                if self.in_comment {
                    self.read_text()
                } else if self.at_line_start() || self.prev_is_whitespace() {
                    if self.peek_option() {
                        self.read_option()
                    } else {
                        self.read_patch_name()
                    }
                } else {
                    self.read_text()
                }
            },
            None => {
                proof {
                    reveal_strlit("");
                }
                (SyntaxKind::ERROR, "")
            },
        }
    }

    /// The byte at the current position, if any.
    fn current_byte(&self) -> (b: Option<u8>)
        ensures
            b == (if self.pos() < self.bytes().len() {
                Some(self.bytes()[self.pos()])
            } else {
                None::<u8>
            }),
    {
        let bytes = self.input.as_bytes();
        if self.byte_pos < bytes.len() {
            Some(bytes[self.byte_pos])
        } else {
            None
        }
    }

    /// Move past the character at the current position: past its first byte
    /// and the continuation bytes that follow it.
    fn advance(&mut self)
        requires
            old(self).wf(),
        ensures
            final(self).wf(),
            final(self).source() == old(self).source(),
            final(self).in_comment() == old(self).in_comment(),
            old(self).pos() < old(self).bytes().len() ==> {
                &&& old(self).pos() < final(self).pos()
                &&& forall|i: int|
                    old(self).pos() < i < final(self).pos() ==> is_continuation_byte(
                        #[trigger] old(self).bytes()[i],
                    )
                &&& old(self).bytes()[old(self).pos()] < 0x80 ==> final(self).pos() == old(
                    self,
                ).pos() + 1
            },
            old(self).pos() >= old(self).bytes().len() ==> final(self).pos() == old(self).pos(),
    {
        let bytes = self.input.as_bytes();
        if self.byte_pos < bytes.len() {
            let start = self.byte_pos;
            proof {
                encode_utf8_valid_utf8(self.input@);
                if bytes@[start as int] < 0x80 {
                    lemma_boundary_after_ascii(bytes@, start as int);
                }
            }
            let mut next = start + 1;
            while next < bytes.len() && 0x80 <= bytes[next] && bytes[next] <= 0xbf
                invariant
                    start < next <= bytes@.len(),
                    bytes@ == self.bytes(),
                    start == self.byte_pos,
                    forall|i: int| start < i < next ==> is_continuation_byte(#[trigger] bytes@[i]),
                    bytes@[start as int] < 0x80 ==> next == start + 1,
                    bytes@[start as int] < 0x80 && start + 1 < bytes@.len()
                        ==> !is_continuation_byte(bytes@[start + 1]),
                decreases bytes@.len() - next,
            {
                next = next + 1;
            }
            proof {
                encode_utf8_valid_utf8(self.input@);
                lemma_boundary_at(bytes@, next as int);
            }
            self.byte_pos = next;
        }
    }

    fn at_line_start(&self) -> (r: bool)
        requires
            self.pos() <= self.bytes().len(),
        ensures
            r == (self.pos() == 0 || self.bytes()[self.pos() - 1] == NEWLINE_BYTE),
    {
        self.byte_pos == 0 || (self.byte_pos > 0 && self.input.as_bytes()[self.byte_pos - 1] == NEWLINE_BYTE)
    }

    fn prev_is_whitespace(&self) -> (r: bool)
        requires
            self.pos() <= self.bytes().len(),
        ensures
            r == (self.pos() > 0 && (self.bytes()[self.pos() - 1] == SPACE_BYTE || self.bytes()[self.pos() - 1] == TAB_BYTE)),
    {
        if self.byte_pos == 0 {
            return false;
        }
        let prev = self.input.as_bytes()[self.byte_pos - 1];
        prev == SPACE_BYTE || prev == TAB_BYTE
    }

    fn peek_option(&self) -> (r: bool)
        ensures
            r == (self.pos() < self.bytes().len() && self.bytes()[self.pos()] == DASH_BYTE),
    {
        matches!(self.current_byte(), Some(DASH_BYTE))
    }

    fn read_option(&mut self) -> (token: (SyntaxKind, &'a str))
        requires
            old(self).wf(),
        ensures
            final(self).wf(),
            final(self).source() == old(self).source(),
            final(self).in_comment() == old(self).in_comment(),
            final(self).pos() == word_end(old(self).bytes(), old(self).pos()),
            token.0 == SyntaxKind::OPTION,
            token.1.spec_bytes() == old(self).bytes().subrange(old(self).pos(), final(self).pos()),
    {
        let start_byte = self.byte_pos;
        self.skip_word();
        (SyntaxKind::OPTION, self.slice(start_byte, self.byte_pos))
    }

    fn read_patch_name(&mut self) -> (token: (SyntaxKind, &'a str))
        requires
            old(self).wf(),
        ensures
            final(self).wf(),
            final(self).source() == old(self).source(),
            final(self).in_comment() == old(self).in_comment(),
            final(self).pos() == word_end(old(self).bytes(), old(self).pos()),
            token.0 == SyntaxKind::PATCH_NAME,
            token.1.spec_bytes() == old(self).bytes().subrange(old(self).pos(), final(self).pos()),
    {
        let start_byte = self.byte_pos;
        self.skip_word();
        (SyntaxKind::PATCH_NAME, self.slice(start_byte, self.byte_pos))
    }

    /// Move to the next space, tab or newline, or to the end of the input.
    fn skip_word(&mut self)
        requires
            old(self).wf(),
        ensures
            final(self).wf(),
            final(self).source() == old(self).source(),
            final(self).in_comment() == old(self).in_comment(),
            final(self).pos() == word_end(old(self).bytes(), old(self).pos()),
            old(self).pos() <= final(self).pos(),
    {
        let ghost bytes = self.bytes();
        let ghost start = self.pos();
        proof {
            lemma_word_end_bounds(bytes, start);
        }
        loop
            invariant
                self.wf(),
                self.bytes() == bytes,
                self.source() == old(self).source(),
                self.in_comment() == old(self).in_comment(),
                start <= self.pos(),
                word_end(bytes, start) == word_end(bytes, self.pos()),
            ensures
                word_end(bytes, start) == self.pos(),
                start <= self.pos(),
            decreases bytes.len() - self.pos(),
        {
            match self.current_byte() {
                Some(ch) => {
                    if ch == SPACE_BYTE || ch == TAB_BYTE || ch == NEWLINE_BYTE {
                        break;
                    }
                    let ghost before = self.pos();
                    self.advance();
                    proof {
                        lemma_word_end_skip(bytes, before, self.pos());
                    }
                },
                None => {
                    break;
                },
            }
        }
    }

    fn read_text(&mut self) -> (token: (SyntaxKind, &'a str))
        requires
            old(self).wf(),
        ensures
            final(self).wf(),
            final(self).source() == old(self).source(),
            final(self).in_comment() == old(self).in_comment(),
            final(self).pos() == line_end(old(self).bytes(), old(self).pos()),
            token.0 == SyntaxKind::TEXT,
            token.1.spec_bytes() == old(self).bytes().subrange(old(self).pos(), final(self).pos()),
    {
        let start_byte = self.byte_pos;
        let ghost bytes = self.bytes();
        loop
            invariant
                self.wf(),
                self.bytes() == bytes,
                self.source() == old(self).source(),
                self.in_comment() == old(self).in_comment(),
                start_byte <= self.pos(),
                start_byte == old(self).pos(),
                line_end(bytes, start_byte as int) == line_end(bytes, self.pos()),
            ensures
                line_end(bytes, start_byte as int) == self.pos(),
                start_byte <= self.pos(),
            decreases bytes.len() - self.pos(),
        {
            match self.current_byte() {
                Some(ch) => {
                    if ch == NEWLINE_BYTE {
                        break;
                    }
                    let ghost before = self.pos();
                    self.advance();
                    proof {
                        lemma_line_end_skip(bytes, before, self.pos());
                    }
                },
                None => {
                    break;
                },
            }
        }
        (SyntaxKind::TEXT, self.slice(start_byte, self.byte_pos))
    }

    /// The text between two character boundaries of the input.
    fn slice(&self, start: usize, end: usize) -> (text: &'a str)
        requires
            is_lexer_position(self.bytes(), start as int),
            is_lexer_position(self.bytes(), end as int),
            start <= end,
        ensures
            text.spec_bytes() == self.bytes().subrange(start as int, end as int),
    {
        proof {
            encode_utf8_valid_utf8(self.input@);
            lemma_boundary_in_suffix(self.bytes(), start as int, end as int);
        }
        let (_, rest) = self.input.split_at(start);
        let (text, _) = rest.split_at(end - start);
        proof {
            assert(text.spec_bytes() =~= self.bytes().subrange(start as int, end as int));
        }
        text
    }
}


} // verus!
