use std::marker::PhantomData;
use vstd::prelude::*;

/// Lossless parser pieces for quilt series files
pub mod series;

pub use rowan::TextRange;

verus! {

#[verifier::external_type_specification]
#[verifier::external_body]
pub struct ExGreenNode(rowan::GreenNode);

#[verifier::external_type_specification]
#[verifier::external_body]
pub struct ExTextRange(rowan::TextRange);

/// `rowan::GreenNode::clone` (derived; the node is a reference-counted
/// pointer, so the clone shares the same tree): the copy equals the original.
pub assume_specification[ <rowan::GreenNode as Clone>::clone ](node: &rowan::GreenNode) -> (res:
    rowan::GreenNode)
    ensures
        res == *node,
;

/// The error messages, one per line.
pub open spec fn join_lines(lines: Seq<Seq<char>>) -> Seq<char>
    decreases lines.len(),
{
    if lines.len() == 0 {
        seq![]
    } else if lines.len() == 1 {
        lines[0]
    } else {
        join_lines(lines.drop_last()) + seq!['\n'] + lines.last()
    }
}

/// The total number of characters in the lines.
pub open spec fn total_len(lines: Seq<Seq<char>>) -> nat
    decreases lines.len(),
{
    if lines.len() == 0 {
        0
    } else {
        total_len(lines.drop_last()) + lines.last().len()
    }
}

/// Joining keeps every line and adds exactly one newline between each pair:
/// the joined text of `n > 0` lines has their total length plus `n - 1`.
pub proof fn lemma_join_lines_len(lines: Seq<Seq<char>>)
    requires
        lines.len() > 0,
    ensures
        join_lines(lines).len() == total_len(lines) + lines.len() - 1,
    decreases lines.len(),
{
    if lines.len() > 1 {
        lemma_join_lines_len(lines.drop_last());
        assert(join_lines(lines).len() == join_lines(lines.drop_last()).len() + 1
            + lines.last().len());
    } else {
        assert(lines.drop_last().len() == 0);
        assert(total_len(lines.drop_last()) == 0);
        assert(lines.last() == lines[0]);
    }
}

/// Joining two nonempty lists of lines is joining each and putting one
/// newline between: line for line, each message stands in its place, also
/// when two messages are equal.
pub proof fn lemma_join_lines_append(a: Seq<Seq<char>>, b: Seq<Seq<char>>)
    requires
        a.len() > 0,
        b.len() > 0,
    ensures
        join_lines(a + b) == join_lines(a) + seq!['\n'] + join_lines(b),
    decreases b.len(),
{
    let ab = a + b;
    assert(ab.last() == b.last());
    if b.len() == 1 {
        assert(ab.drop_last() =~= a);
        assert(join_lines(b) == b[0]);
    } else {
        assert(ab.drop_last() =~= a + b.drop_last());
        lemma_join_lines_append(a, b.drop_last());
        assert(join_lines(ab) =~= join_lines(a) + seq!['\n'] + join_lines(b));
    }
}

/// Parse error containing a list of error messages
#[derive(Debug, Clone, PartialEq, Eq, Hash)]
pub struct ParseError(pub Vec<String>);

impl ParseError {
    /// The messages as character sequences.
    pub open spec fn messages(&self) -> Seq<Seq<char>> {
        self.0@.map_values(|m: String| m@)
    }

    /// The messages, separated by newlines.
    pub fn to_string(&self) -> (text: String)
        ensures
            text@ == join_lines(self.messages()),
            self.0@.len() > 0 ==> text@.len() == total_len(self.messages()) + self.0@.len() - 1,
    {
        proof {
            if self.0@.len() > 0 {
                lemma_join_lines_len(self.messages());
            }
        }
        let mut text = String::new();
        let mut i: usize = 0;
        while i < self.0.len()
            invariant
                0 <= i <= self.0@.len(),
                text@ == join_lines(self.messages().take(i as int)),
            decreases self.0@.len() - i,
        {
            let ghost before = text@;
            if i > 0 {
                text.append("\n");
            }
            text.append(self.0[i].as_str());
            proof {
                reveal_strlit("\n");
                let lines = self.messages().take(i + 1);
                assert(lines.drop_last() =~= self.messages().take(i as int));
                assert(lines.last() == self.0@[i as int]@);
                if i == 0 {
                    assert(before =~= Seq::<char>::empty());
                    assert(text@ =~= lines[0]);
                } else {
                    assert(text@ =~= join_lines(lines.drop_last()) + seq!['\n'] + lines.last());
                }
            }
            i = i + 1;
        }
        proof {
            assert(self.messages().take(self.0@.len() as int) =~= self.messages());
        }
        text
    }
}

/// Parse error with position information
#[derive(Debug, PartialEq, Eq)]
pub struct PositionedParseError {
    /// The error message
    pub message: String,
    /// The position in the source text where the error occurred
    pub position: rowan::TextRange,
}

impl Clone for PositionedParseError {
    fn clone(&self) -> (copy: Self)
        ensures
            copy == *self,
    {
        PositionedParseError { message: self.message.clone(), position: self.position }
    }
}

/// Parse result containing a syntax tree and any parse errors
#[derive(Debug, PartialEq, Eq)]
pub struct Parse<T> {
    green: rowan::GreenNode,
    errors: Vec<String>,
    positioned_errors: Vec<PositionedParseError>,
    _ty: PhantomData<T>,
}

impl<T> Clone for Parse<T> {
    fn clone(&self) -> (copy: Self)
        ensures
            copy.spec_green() == self.spec_green(),
            copy.spec_errors() == self.spec_errors(),
            copy.spec_positioned_errors() == self.spec_positioned_errors(),
    {
        let errors = self.errors.clone();
        let positioned_errors = self.positioned_errors.clone();
        proof {
            assert(errors@ =~= self.errors@);
            assert(positioned_errors@ =~= self.positioned_errors@);
        }
        Parse { green: self.green.clone(), errors, positioned_errors, _ty: PhantomData }
    }
}

/// The messages of positioned errors, in order.
pub open spec fn messages_of(errors: Seq<PositionedParseError>) -> Seq<String> {
    errors.map_values(|e: PositionedParseError| e.message)
}

/// The messages of positioned errors are one per error, in the same order:
/// entry `i` is the message of error `i`, none dropped, none added.
pub proof fn lemma_messages_of(errors: Seq<PositionedParseError>)
    ensures
        messages_of(errors).len() == errors.len(),
        forall|i: int| 0 <= i < errors.len() ==> #[trigger] messages_of(errors)[i] == errors[i].message,
{
}

/// All error messages of a parse result are the errors without position, in
/// order and none dropped, followed by the messages of the positioned errors:
/// one entry per error of either sort.
pub proof fn lemma_all_messages<T>(parse: Parse<T>)
    ensures
        parse.all_messages().len() == parse.spec_errors().len() + parse.spec_positioned_errors().len(),
        forall|i: int|
            0 <= i < parse.spec_errors().len() ==> #[trigger] parse.all_messages()[i]
                == parse.spec_errors()[i],
        forall|j: int|
            0 <= j < parse.spec_positioned_errors().len() ==> #[trigger] parse.all_messages()[parse.spec_errors().len()
                + j] == parse.spec_positioned_errors()[j].message,
{
    lemma_messages_of(parse.spec_positioned_errors());
    let n = parse.spec_errors().len() as int;
    assert forall|j: int| 0 <= j < parse.spec_positioned_errors().len() implies #[trigger] parse.all_messages()[n
        + j] == parse.spec_positioned_errors()[j].message by {
        assert(parse.all_messages()[n + j] == messages_of(parse.spec_positioned_errors())[j]);
    }
}

impl<T> Parse<T> {
    /// The green node of the syntax tree.
    pub closed spec fn spec_green(&self) -> rowan::GreenNode {
        self.green
    }

    /// The errors without position.
    pub closed spec fn spec_errors(&self) -> Seq<String> {
        self.errors@
    }

    /// The errors with position.
    pub closed spec fn spec_positioned_errors(&self) -> Seq<PositionedParseError> {
        self.positioned_errors@
    }

    /// No error of either sort was recorded.
    pub open spec fn spec_ok(&self) -> bool {
        self.spec_errors().len() == 0 && self.spec_positioned_errors().len() == 0
    }

    /// All error messages: those without position, then those with.
    pub open spec fn all_messages(&self) -> Seq<String> {
        self.spec_errors() + messages_of(self.spec_positioned_errors())
    }

    /// Create a new parse result
    pub fn new(green: rowan::GreenNode, errors: Vec<String>) -> (parse: Self)
        ensures
            parse.spec_green() == green,
            parse.spec_errors() == errors@,
            parse.spec_positioned_errors() == Seq::<PositionedParseError>::empty(),
    {
        Parse { green, errors, positioned_errors: Vec::new(), _ty: PhantomData }
    }

    /// Create a new parse result with positioned errors
    pub fn new_with_positioned_errors(
        green: rowan::GreenNode,
        errors: Vec<String>,
        positioned_errors: Vec<PositionedParseError>,
    ) -> (parse: Self)
        ensures
            parse.spec_green() == green,
            parse.spec_errors() == errors@,
            parse.spec_positioned_errors() == positioned_errors@,
    {
        Parse { green, errors, positioned_errors, _ty: PhantomData }
    }

    /// Get the green node (thread-safe representation)
    pub fn green(&self) -> (green: &rowan::GreenNode)
        ensures
            *green == self.spec_green(),
    {
        &self.green
    }

    /// Get the syntax errors
    pub fn errors(&self) -> (errors: &[String])
        ensures
            errors@ == self.spec_errors(),
    {
        self.errors.as_slice()
    }

    /// Get parse errors with position information
    pub fn positioned_errors(&self) -> (errors: &[PositionedParseError])
        ensures
            errors@ == self.spec_positioned_errors(),
    {
        self.positioned_errors.as_slice()
    }

    /// Get parse errors as strings
    pub fn error_messages(&self) -> (messages: Vec<String>)
        ensures
            messages@ == messages_of(self.spec_positioned_errors()),
            messages@.len() == self.spec_positioned_errors().len(),
            forall|i: int|
                0 <= i < messages@.len() ==> #[trigger] messages@[i]
                    == self.spec_positioned_errors()[i].message,
    {
        proof {
            lemma_messages_of(self.spec_positioned_errors());
        }
        let mut messages: Vec<String> = Vec::new();
        let mut i: usize = 0;
        while i < self.positioned_errors.len()
            invariant
                0 <= i <= self.positioned_errors@.len(),
                messages@ == messages_of(self.positioned_errors@.take(i as int)),
            decreases self.positioned_errors@.len() - i,
        {
            messages.push(self.positioned_errors[i].message.clone());
            proof {
                assert(self.positioned_errors@.take(i + 1) =~= self.positioned_errors@.take(
                    i as int,
                ).push(self.positioned_errors@[i as int]));
                assert(messages@ =~= messages_of(self.positioned_errors@.take(i + 1)));
            }
            i = i + 1;
        }
        proof {
            assert(self.positioned_errors@.take(self.positioned_errors@.len() as int)
                =~= self.positioned_errors@);
        }
        messages
    }

    /// Check if parsing succeeded without errors
    pub fn ok(&self) -> (ok: bool)
        ensures
            ok == self.spec_ok(),
    {
        self.errors.is_empty() && self.positioned_errors.is_empty()
    }

    /// Convert to a Result: the green node of the tree if there are no
    /// errors, else every error message, those without position first
    pub fn to_result(self) -> (result: Result<rowan::GreenNode, ParseError>)
        ensures
            self.spec_ok() ==> result == Ok::<rowan::GreenNode, ParseError>(self.spec_green()),
            !self.spec_ok() ==> (result matches Err(e) && e.0@ == self.all_messages()),
            !self.spec_ok() ==> (result matches Err(e) && {
                &&& e.0@.len() == self.spec_errors().len() + self.spec_positioned_errors().len()
                &&& forall|i: int|
                    0 <= i < self.spec_errors().len() ==> #[trigger] e.0@[i]
                        == self.spec_errors()[i]
                &&& forall|j: int|
                    0 <= j < self.spec_positioned_errors().len() ==> #[trigger] e.0@[self.spec_errors().len()
                        + j] == self.spec_positioned_errors()[j].message
            }),
    {
        proof {
            lemma_all_messages(self);
        }
        if self.errors.is_empty() && self.positioned_errors.is_empty() {
            Ok(self.green)
        } else {
            let mut messages = self.error_messages();
            let mut all_errors = self.errors;
            all_errors.append(&mut messages);
            Err(ParseError(all_errors))
        }
    }

    /// Re-type this parse result, given whether its root node is one of the
    /// node type `U`; it is kept whole when it is, and dropped when not
    pub fn cast<U>(self, root_is_u: bool) -> (cast: Option<Parse<U>>)
        ensures
            root_is_u ==> (cast matches Some(p) && p.spec_green() == self.spec_green()
                && p.spec_errors() == self.spec_errors() && p.spec_positioned_errors()
                == self.spec_positioned_errors()),
            !root_is_u ==> cast is None,
    {
        if !root_is_u {
            return None;
        }
        Some(Parse {
            green: self.green,
            errors: self.errors,
            positioned_errors: self.positioned_errors,
            _ty: PhantomData,
        })
    }
}

} // verus!
