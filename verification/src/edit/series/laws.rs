use vstd::prelude::*;
use vstd::string::StringSliceAdditionalSpecFns;
use vstd::utf8::*;

use crate::edit::series::lex::{
    ends_word, is_lexer_position, lemma_boundary_after_ascii, lemma_boundary_at,
    lemma_boundary_in_suffix, lemma_line_end_bounds, lemma_token_advances, lemma_word_end_bounds,
    at_word_start, lex, lex_from, line_end, token_at, tokens_match, word_end, SyntaxKind, DASH_BYTE, HASH_BYTE,
    NEWLINE_BYTE, SPACE_BYTE, TAB_BYTE,
};

verus! {

/// `start..end` holds no space, tab or newline, and is followed by one of
/// them or by the end of the input.
pub open spec fn is_word(bytes: Seq<u8>, start: int, end: int) -> bool {
    &&& forall|j: int| start <= j < end ==> !ends_word(#[trigger] bytes[j])
    &&& (end == bytes.len() || ends_word(bytes[end]))
}

/// `start..end` holds no newline, and is followed by one or by the end of
/// the input.
pub open spec fn is_line_rest(bytes: Seq<u8>, start: int, end: int) -> bool {
    &&& forall|j: int| start <= j < end ==> #[trigger] bytes[j] != NEWLINE_BYTE
    &&& (end == bytes.len() || bytes[end] == NEWLINE_BYTE)
}

/// What the text of a (non-`EOF`) token looks like, by its kind: `#`, space,
/// tab and newline stand alone; a patch name and an option are maximal runs
/// without space, tab or newline, an option starting with `-` and a patch
/// name with neither `-` nor `#`; a text runs to the end of its line and
/// starts with none of `#`, space, tab. No other kind is ever produced.
pub open spec fn token_shape(bytes: Seq<u8>, span: (SyntaxKind, int, int)) -> bool {
    let (kind, start, end) = span;
    let text = bytes.subrange(start, end);
    &&& 0 <= start < end <= bytes.len()
    &&& match kind {
        SyntaxKind::HASH => text == seq![HASH_BYTE],
        SyntaxKind::SPACE => text == seq![SPACE_BYTE],
        SyntaxKind::TAB => text == seq![TAB_BYTE],
        SyntaxKind::NEWLINE => text == seq![NEWLINE_BYTE],
        SyntaxKind::PATCH_NAME => {
            &&& is_word(bytes, start, end)
            &&& bytes[start] != DASH_BYTE
            &&& bytes[start] != HASH_BYTE
        },
        SyntaxKind::OPTION => is_word(bytes, start, end) && bytes[start] == DASH_BYTE,
        SyntaxKind::TEXT => {
            &&& is_line_rest(bytes, start, end)
            &&& !ends_word(bytes[start])
            &&& bytes[start] != HASH_BYTE
        },
        _ => false,
    }
}

proof fn lemma_word_end_is_word(bytes: Seq<u8>, pos: int)
    requires
        0 <= pos <= bytes.len(),
    ensures
        is_word(bytes, pos, word_end(bytes, pos)),
    decreases bytes.len() - pos,
{
    lemma_word_end_bounds(bytes, pos);
    if pos < bytes.len() && !ends_word(bytes[pos]) {
        lemma_word_end_is_word(bytes, pos + 1);
    }
}

proof fn lemma_line_end_is_line_rest(bytes: Seq<u8>, pos: int)
    requires
        0 <= pos <= bytes.len(),
    ensures
        is_line_rest(bytes, pos, line_end(bytes, pos)),
    decreases bytes.len() - pos,
{
    lemma_line_end_bounds(bytes, pos);
    if pos < bytes.len() && bytes[pos] != NEWLINE_BYTE {
        lemma_line_end_is_line_rest(bytes, pos + 1);
    }
}

/// The token that begins at any position has the shape of its kind.
pub proof fn lemma_token_at_shape(bytes: Seq<u8>, pos: int, in_comment: bool)
    requires
        0 <= pos < bytes.len(),
    ensures
        ({
            let (kind, end, after) = token_at(bytes, pos, in_comment);
            token_shape(bytes, (kind, pos, end))
        }),
{
    lemma_token_advances(bytes, pos, in_comment);
    lemma_word_end_is_word(bytes, pos);
    lemma_line_end_is_line_rest(bytes, pos);
    let (kind, end, after) = token_at(bytes, pos, in_comment);
    if end == pos + 1 {
        assert(bytes.subrange(pos, end) =~= seq![bytes[pos]]);
    }
}

/// The spans tile the input from `pos` on: the first starts at `pos`, each
/// ends where the next begins, every span but the last covers a nonempty
/// text of the shape of its kind, and the last is an empty `EOF` at the end
/// of the input (so the only `EOF`).
pub open spec fn tiles_from(bytes: Seq<u8>, pos: int, spans: Seq<(SyntaxKind, int, int)>) -> bool {
    &&& spans.len() >= 1
    &&& spans[0].1 == pos
    &&& spans.last() == (SyntaxKind::EOF, bytes.len() as int, bytes.len() as int)
    &&& forall|i: int|
        0 <= i < spans.len() - 1 ==> #[trigger] token_shape(bytes, spans[i]) && spans[i].2 == spans[i
            + 1].1
}

proof fn lemma_tiles_cons(
    bytes: Seq<u8>,
    span: (SyntaxKind, int, int),
    rest: Seq<(SyntaxKind, int, int)>,
)
    requires
        token_shape(bytes, span),
        tiles_from(bytes, span.2, rest),
    ensures
        tiles_from(bytes, span.1, seq![span] + rest),
{
    let spans = seq![span] + rest;
    assert(spans[0] == span);
    assert(spans.last() == rest.last());
    assert forall|i: int| 0 <= i < spans.len() - 1 implies #[trigger] token_shape(
        bytes,
        spans[i],
    ) && spans[i].2 == spans[i + 1].1 by {
        assert(spans[i + 1] == rest[i]);
        if i > 0 {
            assert(spans[i] == rest[i - 1]);
        }
    }
}

/// Lexing from any position tiles the rest of the input.
pub proof fn lemma_lex_tiles_input(bytes: Seq<u8>, pos: int, in_comment: bool)
    requires
        0 <= pos <= bytes.len(),
    ensures
        tiles_from(bytes, pos, lex_from(bytes, pos, in_comment)),
    decreases bytes.len() - pos,
{
    if pos < bytes.len() {
        let (kind, end, after) = token_at(bytes, pos, in_comment);
        lemma_token_advances(bytes, pos, in_comment);
        lemma_token_at_shape(bytes, pos, in_comment);
        lemma_lex_tiles_input(bytes, end, after);
        lemma_tiles_cons(bytes, (kind, pos, end), lex_from(bytes, end, after));
        assert(lex_from(bytes, pos, in_comment) == seq![(kind, pos, end)] + lex_from(bytes, end, after));
    } else {
        let spans = lex_from(bytes, pos, in_comment);
        assert(spans == seq![(SyntaxKind::EOF, bytes.len() as int, bytes.len() as int)]);
        assert(spans.last() == (SyntaxKind::EOF, bytes.len() as int, bytes.len() as int));
    }
}

/// At the end of the input nothing is left to lex but the closing `EOF`:
/// after `Lexer::tokenize` has run, running it again yields only `EOF`.
pub proof fn lemma_lex_at_end(bytes: Seq<u8>, in_comment: bool)
    ensures
        lex_from(bytes, bytes.len() as int, in_comment) == seq![
            (SyntaxKind::EOF, bytes.len() as int, bytes.len() as int),
        ],
{
}

/// The bytes that the spans cover, one after another.
pub open spec fn spans_bytes(bytes: Seq<u8>, spans: Seq<(SyntaxKind, int, int)>) -> Seq<u8>
    decreases spans.len(),
{
    if spans.len() == 0 {
        seq![]
    } else {
        bytes.subrange(spans[0].1, spans[0].2) + spans_bytes(bytes, spans.drop_first())
    }
}

/// Lexing loses nothing: the texts of the tokens from `pos`, put together,
/// are exactly the input's bytes from `pos` on.
pub proof fn lemma_lex_lossless(bytes: Seq<u8>, pos: int, in_comment: bool)
    requires
        0 <= pos <= bytes.len(),
    ensures
        spans_bytes(bytes, lex_from(bytes, pos, in_comment)) == bytes.subrange(
            pos,
            bytes.len() as int,
        ),
    decreases bytes.len() - pos,
{
    let spans = lex_from(bytes, pos, in_comment);
    if pos < bytes.len() {
        let (kind, end, after) = token_at(bytes, pos, in_comment);
        lemma_token_advances(bytes, pos, in_comment);
        lemma_lex_lossless(bytes, end, after);
        assert(spans.drop_first() =~= lex_from(bytes, end, after));
        assert(spans_bytes(bytes, spans) == bytes.subrange(pos, end) + spans_bytes(
            bytes,
            lex_from(bytes, end, after),
        ));
        assert(bytes.subrange(pos, end) + bytes.subrange(end, bytes.len() as int) =~= bytes.subrange(
            pos,
            bytes.len() as int,
        ));
    } else {
        assert(spans.drop_first() =~= Seq::<(SyntaxKind, int, int)>::empty());
        assert(spans_bytes(bytes, Seq::<(SyntaxKind, int, int)>::empty()) == Seq::<u8>::empty());
        assert(bytes.subrange(pos, pos) =~= Seq::<u8>::empty());
        assert(spans_bytes(bytes, spans) =~= Seq::<u8>::empty());
    }
}

/// A patch name or an option.
pub open spec fn is_word_kind(kind: SyntaxKind) -> bool {
    kind == SyntaxKind::PATCH_NAME || kind == SyntaxKind::OPTION
}

/// No span strictly between positions `a` and `b` of `spans` is a newline.
pub open spec fn no_newline_between(spans: Seq<(SyntaxKind, int, int)>, a: int, b: int) -> bool {
    forall|j: int| a < j < b ==> (#[trigger] spans[j]).0 != SyntaxKind::NEWLINE
}

/// Before the first newline token, no token is a patch name or an option.
pub open spec fn no_word_before_newline(spans: Seq<(SyntaxKind, int, int)>) -> bool {
    forall|k: int|
        0 <= k < spans.len() && no_newline_between(spans, -1, k) ==> !is_word_kind(
            (#[trigger] spans[k]).0,
        )
}

/// Once a `#` token opens a comment, no later token on its line (before the
/// next newline token) is a patch name or an option.
pub open spec fn comments_hold_no_words(spans: Seq<(SyntaxKind, int, int)>) -> bool {
    forall|i: int, k: int|
        #![trigger spans[i], spans[k]]
        0 <= i < k < spans.len() && spans[i].0 == SyntaxKind::HASH && no_newline_between(spans, i, k)
            ==> !is_word_kind(spans[k].0)
}

/// A `#` opens a comment that runs to the end of its line: lexing never
/// yields a patch name or an option after a `#` token and before the next
/// newline token, nor, when it starts inside a comment, before the first
/// newline token.
pub proof fn lemma_comments_hold_no_words(bytes: Seq<u8>, pos: int, in_comment: bool)
    requires
        0 <= pos <= bytes.len(),
    ensures
        comments_hold_no_words(lex_from(bytes, pos, in_comment)),
        in_comment ==> no_word_before_newline(lex_from(bytes, pos, in_comment)),
    decreases bytes.len() - pos,
{
    let spans = lex_from(bytes, pos, in_comment);
    if pos < bytes.len() {
        let (kind, end, after) = token_at(bytes, pos, in_comment);
        lemma_token_advances(bytes, pos, in_comment);
        lemma_comments_hold_no_words(bytes, end, after);
        let rest = lex_from(bytes, end, after);
        assert(spans == seq![(kind, pos, end)] + rest);
        assert(spans[0] == (kind, pos, end));
        assert(forall|j: int| 0 <= j < rest.len() ==> #[trigger] rest[j] == spans[j + 1]);
        // The comment state after the first token is still open unless it is a newline.
        assert(kind != SyntaxKind::NEWLINE && (in_comment || kind == SyntaxKind::HASH) ==> after);
        assert(in_comment ==> !is_word_kind(kind));
        if in_comment {
            assert forall|k: int|
                0 <= k < spans.len() && no_newline_between(spans, -1, k) implies !is_word_kind(
                (#[trigger] spans[k]).0,
            ) by {
                if k > 0 {
                    assert(spans[0].0 != SyntaxKind::NEWLINE);
                    assert(no_newline_between(rest, -1, k - 1)) by {
                        assert forall|j: int| -1 < j < k - 1 implies (#[trigger] rest[j]).0
                            != SyntaxKind::NEWLINE by {
                            assert(rest[j] == spans[j + 1]);
                        }
                    }
                    assert(rest[k - 1] == spans[k]);
                }
            }
        }
        assert forall|i: int, k: int|
            #![trigger spans[i], spans[k]]
            0 <= i < k < spans.len() && spans[i].0 == SyntaxKind::HASH && no_newline_between(
                spans,
                i,
                k,
            ) implies !is_word_kind(spans[k].0) by {
            assert(rest[k - 1] == spans[k]);
            if i > 0 {
                assert(rest[i - 1] == spans[i]);
                assert(no_newline_between(rest, i - 1, k - 1)) by {
                    assert forall|j: int| i - 1 < j < k - 1 implies (#[trigger] rest[j]).0
                        != SyntaxKind::NEWLINE by {
                        assert(rest[j] == spans[j + 1]);
                    }
                }
            } else {
                assert(after);
                assert(no_newline_between(rest, -1, k - 1)) by {
                    assert forall|j: int| -1 < j < k - 1 implies (#[trigger] rest[j]).0
                        != SyntaxKind::NEWLINE by {
                        assert(rest[j] == spans[j + 1]);
                    }
                }
            }
        }
    } else {
        assert(spans == seq![(SyntaxKind::EOF, bytes.len() as int, bytes.len() as int)]);
    }
}

/// Whether a comment is open at token `i`: looking back from `i`, a `#`
/// token comes before any newline token; when neither comes, whether
/// lexing began inside a comment.
pub open spec fn comment_open_at(spans: Seq<(SyntaxKind, int, int)>, i: int, began_in_comment: bool) -> bool
    decreases i,
{
    if i <= 0 {
        began_in_comment
    } else if spans[i - 1].0 == SyntaxKind::HASH {
        true
    } else if spans[i - 1].0 == SyntaxKind::NEWLINE {
        false
    } else {
        comment_open_at(spans, i - 1, began_in_comment)
    }
}

/// What kind a token gets from its first byte and its place:
/// - `#`, space, tab and newline are tokens of their own kind, one byte long;
/// - inside a comment, any other byte begins a `TEXT` to the end of the line;
/// - outside a comment, at the start of the input or just after a newline,
///   space or tab, `-` begins an `OPTION` and any other byte (a letter, a
///   digit, a dot, a non-ASCII byte...) begins a `PATCH_NAME`, each running
///   to the next space, tab or newline.
pub open spec fn kind_rules(bytes: Seq<u8>, span: (SyntaxKind, int, int), comment_open: bool) -> bool {
    let (kind, start, end) = span;
    let b = bytes[start];
    let special = b == HASH_BYTE || b == SPACE_BYTE || b == TAB_BYTE || b == NEWLINE_BYTE;
    let after_blank = start == 0 || bytes[start - 1] == NEWLINE_BYTE || bytes[start - 1]
        == SPACE_BYTE || bytes[start - 1] == TAB_BYTE;
    &&& b == HASH_BYTE ==> kind == SyntaxKind::HASH && end == start + 1
    &&& b == SPACE_BYTE ==> kind == SyntaxKind::SPACE && end == start + 1
    &&& b == TAB_BYTE ==> kind == SyntaxKind::TAB && end == start + 1
    &&& b == NEWLINE_BYTE ==> kind == SyntaxKind::NEWLINE && end == start + 1
    &&& (!special && comment_open) ==> kind == SyntaxKind::TEXT && is_line_rest(bytes, start, end)
    &&& (!special && !comment_open && after_blank && b == DASH_BYTE) ==> kind == SyntaxKind::OPTION
        && is_word(bytes, start, end)
    &&& (!special && !comment_open && after_blank && b != DASH_BYTE) ==> kind
        == SyntaxKind::PATCH_NAME && is_word(bytes, start, end)
}

proof fn lemma_comment_open_shift(
    spans: Seq<(SyntaxKind, int, int)>,
    rest: Seq<(SyntaxKind, int, int)>,
    i: int,
    began: bool,
    after: bool,
)
    requires
        spans.len() == rest.len() + 1,
        forall|j: int| 0 <= j < rest.len() ==> #[trigger] rest[j] == spans[j + 1],
        spans[0].0 == SyntaxKind::HASH ==> after,
        spans[0].0 == SyntaxKind::NEWLINE ==> !after,
        spans[0].0 != SyntaxKind::HASH && spans[0].0 != SyntaxKind::NEWLINE ==> after == began,
        0 <= i <= rest.len(),
    ensures
        comment_open_at(spans, i + 1, began) == comment_open_at(rest, i, after),
    decreases i,
{
    if i > 0 {
        assert(rest[i - 1] == spans[i]);
        lemma_comment_open_shift(spans, rest, i - 1, began, after);
    } else {
        assert(comment_open_at(spans, 0, began) == began);
        assert(comment_open_at(rest, 0, after) == after);
    }
}

/// Every token but the closing `EOF` follows `kind_rules`.
pub open spec fn kinds_follow_rules(bytes: Seq<u8>, spans: Seq<(SyntaxKind, int, int)>, began_in_comment: bool) -> bool {
    forall|i: int|
        0 <= i < spans.len() - 1 ==> kind_rules(
            bytes,
            #[trigger] spans[i],
            comment_open_at(spans, i, began_in_comment),
        )
}

/// Every token gets its kind by `kind_rules`, from its first byte, its
/// place, and whether a `#` earlier on its line left a comment open.
pub proof fn lemma_lex_kinds(bytes: Seq<u8>, pos: int, in_comment: bool)
    requires
        0 <= pos <= bytes.len(),
    ensures
        kinds_follow_rules(bytes, lex_from(bytes, pos, in_comment), in_comment),
    decreases bytes.len() - pos,
{
    let spans = lex_from(bytes, pos, in_comment);
    if pos < bytes.len() {
        let (kind, end, after) = token_at(bytes, pos, in_comment);
        lemma_token_advances(bytes, pos, in_comment);
        lemma_word_end_is_word(bytes, pos);
        lemma_line_end_is_line_rest(bytes, pos);
        lemma_lex_kinds(bytes, end, after);
        let rest = lex_from(bytes, end, after);
        assert(spans == seq![(kind, pos, end)] + rest);
        assert(forall|j: int| 0 <= j < rest.len() ==> #[trigger] rest[j] == spans[j + 1]);
        assert(kind_rules(bytes, spans[0], comment_open_at(spans, 0, in_comment)));
        assert forall|i: int| 0 <= i < spans.len() - 1 implies kind_rules(
            bytes,
            #[trigger] spans[i],
            comment_open_at(spans, i, in_comment),
        ) by {
            if i > 0 {
                lemma_comment_open_shift(spans, rest, i - 1, in_comment, after);
                assert(spans[i] == rest[i - 1]);
                assert(kind_rules(bytes, rest[i - 1], comment_open_at(rest, i - 1, after)));
            }
        }
        assert(kinds_follow_rules(bytes, spans, in_comment));
    } else {
        assert(spans.len() == 1);
    }
}

/// In valid UTF-8, a token that starts on a character boundary ends on one.
proof fn lemma_token_end_boundary(bytes: Seq<u8>, pos: int, in_comment: bool)
    requires
        valid_utf8(bytes),
        0 <= pos < bytes.len(),
        is_char_boundary(bytes, pos),
    ensures
        is_lexer_position(bytes, token_at(bytes, pos, in_comment).1),
{
    lemma_token_advances(bytes, pos, in_comment);
    lemma_token_at_shape(bytes, pos, in_comment);
    let (kind, end, after) = token_at(bytes, pos, in_comment);
    if end == pos + 1 && bytes[pos] < 0x80 {
        lemma_boundary_after_ascii(bytes, pos);
    } else {
        lemma_boundary_at(bytes, end);
    }
}

/// The characters that the spans cover, one after another.
pub open spec fn spans_chars(bytes: Seq<u8>, spans: Seq<(SyntaxKind, int, int)>) -> Seq<char>
    decreases spans.len(),
{
    if spans.len() == 0 {
        seq![]
    } else {
        decode_utf8(bytes.subrange(spans[0].1, spans[0].2)) + spans_chars(bytes, spans.drop_first())
    }
}

/// Lexing valid UTF-8 loses no character: the characters of the tokens from
/// a character boundary `pos`, put together, are those of the input from `pos`.
pub proof fn lemma_lex_lossless_chars(bytes: Seq<u8>, pos: int, in_comment: bool)
    requires
        valid_utf8(bytes),
        is_lexer_position(bytes, pos),
    ensures
        spans_chars(bytes, lex_from(bytes, pos, in_comment)) == decode_utf8(
            bytes.subrange(pos, bytes.len() as int),
        ),
    decreases bytes.len() - pos,
{
    let spans = lex_from(bytes, pos, in_comment);
    if pos < bytes.len() {
        let (kind, end, after) = token_at(bytes, pos, in_comment);
        lemma_token_advances(bytes, pos, in_comment);
        lemma_token_end_boundary(bytes, pos, in_comment);
        lemma_lex_lossless_chars(bytes, end, after);
        lemma_boundary_in_suffix(bytes, pos, end);
        let sub = bytes.subrange(pos, bytes.len() as int);
        decode_utf8_split(sub, end - pos);
        assert(sub.subrange(0, end - pos) =~= bytes.subrange(pos, end));
        assert(sub.subrange(end - pos, sub.len() as int) =~= bytes.subrange(end, bytes.len() as int));
        assert(spans.drop_first() =~= lex_from(bytes, end, after));
        assert(spans_chars(bytes, spans) == decode_utf8(bytes.subrange(pos, end)) + spans_chars(
            bytes,
            lex_from(bytes, end, after),
        ));
    } else {
        let empty = Seq::<u8>::empty();
        assert(bytes.subrange(pos, pos) =~= empty);
        assert(decode_utf8(empty) =~= Seq::<char>::empty());
        assert(spans.drop_first() =~= Seq::<(SyntaxKind, int, int)>::empty());
        assert(spans_chars(bytes, Seq::<(SyntaxKind, int, int)>::empty()) == Seq::<char>::empty());
        assert(spans_chars(bytes, spans) =~= Seq::<char>::empty());
    }
}

/// The texts of the tokens, one after another.
pub open spec fn tokens_text<'a>(tokens: Seq<(SyntaxKind, &'a str)>) -> Seq<char>
    decreases tokens.len(),
{
    if tokens.len() == 0 {
        seq![]
    } else {
        tokens[0].1@ + tokens_text(tokens.drop_first())
    }
}

proof fn lemma_tokens_text_spans_chars<'a>(
    tokens: Seq<(SyntaxKind, &'a str)>,
    bytes: Seq<u8>,
    spans: Seq<(SyntaxKind, int, int)>,
)
    requires
        tokens_match(tokens, bytes, spans),
    ensures
        tokens_text(tokens) == spans_chars(bytes, spans),
    decreases tokens.len(),
{
    if tokens.len() > 0 {
        assert(tokens_match(tokens.drop_first(), bytes, spans.drop_first())) by {
            assert forall|i: int| 0 <= i < tokens.len() - 1 implies crate::edit::series::lex::token_matches(
                #[trigger] tokens.drop_first()[i],
                bytes,
                spans.drop_first()[i],
            ) by {
                assert(tokens.drop_first()[i] == tokens[i + 1]);
            }
        }
        lemma_tokens_text_spans_chars(tokens.drop_first(), bytes, spans.drop_first());
        assert(crate::edit::series::lex::token_matches(tokens[0], bytes, spans[0]));
    }
}

/// Tokenizing a whole text loses nothing: when the tokens match the lexing
/// of `source` (as `Lexer::tokenize` on a new lexer guarantees), their
/// texts put together spell out `source`.
pub proof fn lemma_tokens_spell_source<'a>(tokens: Seq<(SyntaxKind, &'a str)>, source: &str)
    requires
        tokens_match(tokens, source.spec_bytes(), lex(source.spec_bytes())),
    ensures
        tokens_text(tokens) == source@,
{
    let bytes = source.spec_bytes();
    encode_utf8_valid_utf8(source@);
    encode_utf8_decode_utf8(source@);
    is_char_boundary_start_end_of_seq(bytes);
    lemma_lex_lossless_chars(bytes, 0, false);
    lemma_tokens_text_spans_chars(tokens, bytes, lex(bytes));
    assert(bytes.subrange(0, bytes.len() as int) =~= bytes);
}

/// The spans moved `by` bytes further into the input.
pub open spec fn shift_spans(spans: Seq<(SyntaxKind, int, int)>, by: int) -> Seq<(SyntaxKind, int, int)> {
    spans.map_values(|span: (SyntaxKind, int, int)| (span.0, span.1 + by, span.2 + by))
}

/// A text that is empty or ends in a newline.
pub open spec fn ends_in_newline_or_empty(s: Seq<u8>) -> bool {
    s.len() == 0 || s.last() == NEWLINE_BYTE
}

proof fn lemma_word_end_in_prefix(s: Seq<u8>, t: Seq<u8>, pos: int)
    requires
        s.len() > 0,
        s.last() == NEWLINE_BYTE,
        0 <= pos < s.len(),
    ensures
        word_end(s + t, pos) == word_end(s, pos),
        word_end(s, pos) < s.len(),
        line_end(s + t, pos) == line_end(s, pos),
        line_end(s, pos) < s.len(),
    decreases s.len() - pos,
{
    assert((s + t)[pos] == s[pos]);
    if pos + 1 < s.len() {
        lemma_word_end_in_prefix(s, t, pos + 1);
    }
}

proof fn lemma_word_end_in_suffix(s: Seq<u8>, t: Seq<u8>, q: int)
    requires
        0 <= q <= t.len(),
    ensures
        word_end(s + t, s.len() + q) == s.len() + word_end(t, q),
        line_end(s + t, s.len() + q) == s.len() + line_end(t, q),
    decreases t.len() - q,
{
    if q < t.len() {
        assert((s + t)[s.len() + q] == t[q]);
        lemma_word_end_in_suffix(s, t, q + 1);
    }
}

/// Lexing `s + t` from a position inside `s` (which ends in a newline) goes
/// as lexing `s` alone, and then as lexing `t` alone, moved past `s`.
proof fn lemma_lex_append_prefix(s: Seq<u8>, t: Seq<u8>, pos: int, in_comment: bool)
    requires
        s.len() > 0,
        s.last() == NEWLINE_BYTE,
        0 <= pos < s.len(),
    ensures
        lex_from(s + t, pos, in_comment) == lex_from(s, pos, in_comment).drop_last() + shift_spans(
            lex_from(t, 0, false),
            s.len() as int,
        ),
    decreases s.len() - pos,
{
    let st = s + t;
    lemma_word_end_in_prefix(s, t, pos);
    assert(st[pos] == s[pos]);
    if pos > 0 {
        assert(st[pos - 1] == s[pos - 1]);
    }
    assert(at_word_start(st, pos) == at_word_start(s, pos));
    assert(token_at(st, pos, in_comment) == token_at(s, pos, in_comment));
    let (kind, end, after) = token_at(s, pos, in_comment);
    lemma_token_advances(s, pos, in_comment);
    let rest_s = lex_from(s, end, after);
    assert(lex_from(s, pos, in_comment) == seq![(kind, pos, end)] + rest_s);
    assert(lex_from(st, pos, in_comment) == seq![(kind, pos, end)] + lex_from(st, end, after));
    lemma_lex_tiles_input(s, end, after);
    assert((seq![(kind, pos, end)] + rest_s).drop_last() =~= seq![(kind, pos, end)]
        + rest_s.drop_last());
    if end < s.len() {
        lemma_lex_append_prefix(s, t, end, after);
    } else {
        // Only the closing newline reaches the end of `s`, and it closes any comment.
        assert(pos == s.len() - 1);
        assert(s[pos] == NEWLINE_BYTE);
        assert(kind == SyntaxKind::NEWLINE && !after);
        assert(rest_s == seq![(SyntaxKind::EOF, s.len() as int, s.len() as int)]);
        assert(rest_s.drop_last() =~= Seq::<(SyntaxKind, int, int)>::empty());
        lemma_lex_append_suffix(s, t, 0, false);
        assert(s.len() + 0 == s.len());
    }
}

/// Lexing `s + t` from a position inside `t`, after a newline that ends `s`,
/// goes as lexing `t` alone, moved past `s`.
proof fn lemma_lex_append_suffix(s: Seq<u8>, t: Seq<u8>, q: int, in_comment: bool)
    requires
        s.len() > 0,
        s.last() == NEWLINE_BYTE,
        0 <= q <= t.len(),
    ensures
        lex_from(s + t, s.len() + q, in_comment) == shift_spans(
            lex_from(t, q, in_comment),
            s.len() as int,
        ),
    decreases t.len() - q,
{
    let st = s + t;
    let d = s.len() as int;
    if q < t.len() {
        lemma_word_end_in_suffix(s, t, q);
        assert(st[d + q] == t[q]);
        if q > 0 {
            assert(st[d + q - 1] == t[q - 1]);
        } else {
            assert(st[d - 1] == s.last());
        }
        assert(at_word_start(st, d + q) == at_word_start(t, q));
        let (kind, end, after) = token_at(t, q, in_comment);
        assert(token_at(st, d + q, in_comment) == (kind, d + end, after));
        lemma_token_advances(t, q, in_comment);
        lemma_lex_append_suffix(s, t, end, after);
        let rest = lex_from(t, end, after);
        assert(lex_from(t, q, in_comment) == seq![(kind, q, end)] + rest);
        assert(lex_from(st, d + q, in_comment) == seq![(kind, d + q, d + end)] + lex_from(
            st,
            d + end,
            after,
        ));
        assert(shift_spans(seq![(kind, q, end)] + rest, d) =~= seq![(kind, d + q, d + end)]
            + shift_spans(rest, d));
    } else {
        assert(lex_from(st, d + q, in_comment) == seq![
            (SyntaxKind::EOF, st.len() as int, st.len() as int),
        ]);
        assert(lex_from(t, q, in_comment) == seq![
            (SyntaxKind::EOF, t.len() as int, t.len() as int),
        ]);
        assert(shift_spans(lex_from(t, q, in_comment), d) =~= seq![
            (SyntaxKind::EOF, st.len() as int, st.len() as int),
        ]);
    }
}

/// Lexing restarts cleanly after a newline: when `s` is empty or ends in a
/// newline, the tokens of `s + t` are those of `s` without its closing
/// `EOF`, followed by those of `t` moved past `s` (comment state and line
/// start begin afresh, as at the start of the input).
pub proof fn lemma_lex_restarts_after_newline(s: Seq<u8>, t: Seq<u8>)
    requires
        ends_in_newline_or_empty(s),
    ensures
        lex(s + t) == lex(s).drop_last() + shift_spans(lex(t), s.len() as int),
{
    if s.len() == 0 {
        assert(s + t =~= t);
        assert(lex(s) == seq![(SyntaxKind::EOF, 0int, 0int)]);
        assert(lex(s).drop_last() =~= Seq::<(SyntaxKind, int, int)>::empty());
        assert(shift_spans(lex(t), 0) =~= lex(t));
        assert(lex(s).drop_last() + shift_spans(lex(t), 0) =~= lex(t));
    } else {
        lemma_lex_append_prefix(s, t, 0, false);
    }
}

/// The restart law for what `Lexer::tokenize` hands out: when `s` is empty
/// or ends in a newline, and `a`, `b`, `c` are the tokens of `s`, `t` and
/// `st` (whose bytes are those of `s` then `t`), then `c` is `a` without its
/// closing `EOF`, followed by `b`, kind for kind and text for text.
pub proof fn lemma_tokens_restart_after_newline<'a, 'b, 'c>(
    s: &str,
    t: &str,
    st: &str,
    a: Seq<(SyntaxKind, &'a str)>,
    b: Seq<(SyntaxKind, &'b str)>,
    c: Seq<(SyntaxKind, &'c str)>,
)
    requires
        ends_in_newline_or_empty(s.spec_bytes()),
        st.spec_bytes() == s.spec_bytes() + t.spec_bytes(),
        tokens_match(a, s.spec_bytes(), lex(s.spec_bytes())),
        tokens_match(b, t.spec_bytes(), lex(t.spec_bytes())),
        tokens_match(c, st.spec_bytes(), lex(st.spec_bytes())),
    ensures
        c.len() == a.len() - 1 + b.len(),
        forall|i: int|
            0 <= i < a.len() - 1 ==> (#[trigger] c[i]).0 == a[i].0 && c[i].1@ == a[i].1@,
        forall|j: int|
            0 <= j < b.len() ==> (#[trigger] c[a.len() - 1 + j]).0 == b[j].0 && c[a.len() - 1
                + j].1@ == b[j].1@,
{
    let sb = s.spec_bytes();
    let tb = t.spec_bytes();
    let stb = st.spec_bytes();
    let d = sb.len() as int;
    lemma_lex_restarts_after_newline(sb, tb);
    lemma_lex_tiles_input(sb, 0, false);
    lemma_lex_tiles_input(tb, 0, false);
    let ls = lex(sb);
    let lt = lex(tb);
    let lst = lex(stb);
    assert forall|i: int| 0 <= i < a.len() - 1 implies (#[trigger] c[i]).0 == a[i].0 && c[i].1@
        == a[i].1@ by {
        assert(lst[i] == ls[i]);
        assert(token_shape(sb, ls[i]));
        assert(stb.subrange(ls[i].1, ls[i].2) =~= sb.subrange(ls[i].1, ls[i].2));
        assert(crate::edit::series::lex::token_matches(c[i], stb, lst[i]));
        assert(crate::edit::series::lex::token_matches(a[i], sb, ls[i]));
    }
    assert forall|j: int| 0 <= j < b.len() implies (#[trigger] c[a.len() - 1 + j]).0 == b[j].0
        && c[a.len() - 1 + j].1@ == b[j].1@ by {
        let k = a.len() - 1 + j;
        assert(lst[k] == shift_spans(lt, d)[j]);
        assert(lst[k] == (lt[j].0, lt[j].1 + d, lt[j].2 + d));
        if j < lt.len() - 1 {
            assert(token_shape(tb, lt[j]));
        } else {
            assert(lt[j] == (SyntaxKind::EOF, tb.len() as int, tb.len() as int));
        }
        assert(stb.subrange(lt[j].1 + d, lt[j].2 + d) =~= tb.subrange(lt[j].1, lt[j].2));
        assert(crate::edit::series::lex::token_matches(c[k], stb, lst[k]));
        assert(crate::edit::series::lex::token_matches(b[j], tb, lt[j]));
    }
}

} // verus!
