//! The parser: reads a source and builds the value tree.
//!
//! The first character that is not whitespace decides what the whole text
//! is: `-` starts a sequence of `- item` lines, a letter or digit starts a
//! mapping of `key: value` lines, the end of the text stands for null, and
//! anything else is an error.

use vstd::prelude::*;
use crate::nodes::{trees, Dict, Node, NodeView};
use crate::scalar::{classify, classify_chars, trim, trimmed};
use crate::sources::{char_at, is_source_space, ISource};
use crate::strings::{alphanumeric, chars_of, is_alphanumeric, string_from_chars};

verus! {

/// Why a text could not be parsed.
#[derive(Debug, Clone, Copy, PartialEq, Eq, Structural)]
pub enum ParseError {
    /// The first significant character can start neither a sequence nor a
    /// mapping.
    UnexpectedCharacter(char),
}

impl ParseError {
    /// A message that names the offending character.
    pub fn to_string(&self) -> (r: String)
        ensures
            r@ == "Unexpected character: "@ + seq![self->UnexpectedCharacter_0],
    {
        match self {
            ParseError::UnexpectedCharacter(c) => {
                let mut text = chars_of("Unexpected character: ");
                text.push(*c);
                string_from_chars(text.as_slice())
            },
        }
    }
}

/// The position after the whitespace that starts at `p`.
pub open spec fn skip_space(t: Seq<char>, p: nat) -> nat
    decreases t.len() - p,
{
    if p < t.len() && is_source_space(t[p as int]) {
        skip_space(t, p + 1)
    } else {
        p
    }
}

/// The first position from `p` on that holds `stop`, or the end.
pub open spec fn find_char(t: Seq<char>, p: nat, stop: char) -> nat
    decreases t.len() - p,
{
    if p < t.len() && t[p as int] != stop {
        find_char(t, p + 1, stop)
    } else {
        p
    }
}

/// The position one character on from `p`, or `p` at the end.
pub open spec fn step(t: Seq<char>, p: nat) -> nat {
    if p < t.len() {
        p + 1
    } else {
        p
    }
}

/// Skipping whitespace moves forward and stays within the text.
pub proof fn lemma_skip_space_bounds(t: Seq<char>, p: nat)
    requires
        p <= t.len(),
    ensures
        p <= skip_space(t, p) <= t.len(),
    decreases t.len() - p,
{
    if p < t.len() && is_source_space(t[p as int]) {
        lemma_skip_space_bounds(t, p + 1);
    }
}

/// Searching moves forward and stays within the text.
pub proof fn lemma_find_char_bounds(t: Seq<char>, p: nat, stop: char)
    requires
        p <= t.len(),
    ensures
        p <= find_char(t, p, stop) <= t.len(),
    decreases t.len() - p,
{
    if p < t.len() && t[p as int] != stop {
        lemma_find_char_bounds(t, p + 1, stop);
    }
}

/// The items of a sequence whose first `-` stands at `p`: for each line
/// that starts with `-`, the text after the dash and its whitespace, up to
/// the line break, trimmed and classified. The first line that does not
/// start with `-` ends the sequence.
pub open spec fn sequence_items(t: Seq<char>, p: nat) -> Seq<NodeView>
    decreases t.len() - p,
{
    if p < t.len() && t[p as int] == '-' {
        let vs = skip_space(t, p + 1);
        let ve = find_char(t, vs, '\n');
        proof {
            lemma_skip_space_bounds(t, p + 1);
            lemma_find_char_bounds(t, vs, '\n');
        }
        seq![classify(trim(t.subrange(vs as int, ve as int)))] + sequence_items(t, step(t, ve))
    } else {
        Seq::empty()
    }
}

/// The entries of a mapping read from `p` on, added to `m`. At a letter or
/// digit, the text up to `:` is the key; after the colon and whitespace, the
/// text up to the line break is the value; both are trimmed, the value
/// classified, and a later key replaces an earlier one. Any other character
/// is skipped.
pub open spec fn mapping_entries(t: Seq<char>, p: nat, m: Map<Seq<char>, NodeView>) -> Map<
    Seq<char>,
    NodeView,
>
    decreases t.len() - p,
{
    if p >= t.len() {
        m
    } else if alphanumeric(t[p as int]) {
        let ke = find_char(t, p, ':');
        let vs = skip_space(t, step(t, ke));
        let ve = find_char(t, vs, '\n');
        proof {
            lemma_find_char_bounds(t, p, ':');
            lemma_skip_space_bounds(t, step(t, ke));
            lemma_find_char_bounds(t, vs, '\n');
        }
        let key = trim(t.subrange(p as int, ke as int));
        let value = classify(trim(t.subrange(vs as int, ve as int)));
        mapping_entries(t, step(t, ve), m.insert(key, value))
    } else {
        mapping_entries(t, p + 1, m)
    }
}

/// Where the cursor stands after a sequence whose first `-` stands at `p`:
/// at the first line start that does not hold `-`, or at the end.
pub open spec fn sequence_end(t: Seq<char>, p: nat) -> nat
    decreases t.len() - p,
{
    if p < t.len() && t[p as int] == '-' {
        let vs = skip_space(t, p + 1);
        let ve = find_char(t, vs, '\n');
        proof {
            lemma_skip_space_bounds(t, p + 1);
            lemma_find_char_bounds(t, vs, '\n');
        }
        sequence_end(t, step(t, ve))
    } else {
        p
    }
}

/// Where the cursor stands after a mapping read from `p`: a mapping reads
/// while input remains, so at the end of the text.
pub open spec fn mapping_end(t: Seq<char>, p: nat) -> nat {
    if p < t.len() {
        t.len()
    } else {
        p
    }
}

/// Where the cursor stands after parsing `t` from position `p`.
pub open spec fn parse_end(t: Seq<char>, p: nat) -> nat {
    let q = skip_space(t, p);
    match char_at(t, q) {
        None => q,
        Some(c) => {
            if c == '-' {
                sequence_end(t, q)
            } else if alphanumeric(c) {
                mapping_end(t, q)
            } else {
                q
            }
        },
    }
}

/// What parsing `t` from position `p` gives.
pub open spec fn parse_text(t: Seq<char>, p: nat) -> Result<NodeView, ParseError> {
    let q = skip_space(t, p);
    match char_at(t, q) {
        None => Ok(NodeView::Null),
        Some(c) => {
            if c == '-' {
                Ok(NodeView::Array(sequence_items(t, q)))
            } else if alphanumeric(c) {
                Ok(NodeView::Dictionary(mapping_entries(t, q, Map::empty())))
            } else {
                Err(ParseError::UnexpectedCharacter(c))
            }
        },
    }
}

/// Whether `r` is what parsing `t` from `p` gives: a node with the expected
/// tree, or the expected error.
pub open spec fn parse_outcome(t: Seq<char>, p: nat, r: Result<Node, ParseError>) -> bool {
    match parse_text(t, p) {
        Ok(v) => r is Ok && r->Ok_0.tree() == v,
        Err(e) => r == Err::<Node, ParseError>(e),
    }
}

/// Moves the cursor past whitespace.
pub fn skip_whitespace<S: ISource>(source: &mut S)
    ensures
        final(source).text() == old(source).text(),
        final(source).pos() == skip_space(old(source).text(), old(source).pos()),
{
    let ghost t = source.text();
    let ghost start = source.pos();
    loop
        invariant
            source.text() == t,
            skip_space(t, start) == skip_space(t, source.pos()),
        ensures
            source.text() == t,
            source.pos() == skip_space(t, start),
        decreases t.len() - source.pos(),
    {
        match source.current() {
            Some(c) => {
                if !source.is_whitespace(c) {
                    break;
                }
                source.next();
            },
            None => {
                break;
            },
        }
    }
}

/// Reads the characters up to `stop` or the end, leaving the cursor there.
fn read_until<S: ISource>(source: &mut S, stop: char) -> (r: Vec<char>)
    requires
        old(source).pos() <= old(source).text().len(),
    ensures
        final(source).text() == old(source).text(),
        final(source).pos() == find_char(old(source).text(), old(source).pos(), stop),
        r@ == old(source).text().subrange(old(source).pos() as int, final(source).pos() as int),
{
    let ghost t = source.text();
    let ghost start = source.pos();
    let mut r: Vec<char> = Vec::new();
    loop
        invariant
            source.text() == t,
            start <= source.pos() <= t.len(),
            find_char(t, start, stop) == find_char(t, source.pos(), stop),
            r@ == t.subrange(start as int, source.pos() as int),
        ensures
            source.text() == t,
            source.pos() == find_char(t, start, stop),
            r@ == t.subrange(start as int, source.pos() as int),
        decreases t.len() - source.pos(),
    {
        match source.current() {
            Some(c) => {
                if c == stop {
                    break;
                }
                r.push(c);
                source.next();
                assert(r@ =~= t.subrange(start as int, source.pos() as int));
            },
            None => {
                break;
            },
        }
    }
    r
}

proof fn lemma_trees_push(s: Seq<Node>, n: Node)
    ensures
        trees(s.push(n)) == trees(s).push(n.tree()),
{
    assert(s.push(n).drop_last() =~= s);
}

/// Reads a sequence: one item per line that starts with `-`.
fn parse_sequence<S: ISource>(source: &mut S) -> (r: Node)
    ensures
        final(source).text() == old(source).text(),
        r.tree() == NodeView::Array(sequence_items(old(source).text(), old(source).pos())),
        final(source).pos() == sequence_end(old(source).text(), old(source).pos()),
{
    let ghost t = source.text();
    let ghost start = source.pos();
    let mut items: Vec<Node> = Vec::new();
    loop
        invariant
            source.text() == t,
            trees(items@) + sequence_items(t, source.pos()) == sequence_items(t, start),
            sequence_end(t, source.pos()) == sequence_end(t, start),
        ensures
            source.text() == t,
            trees(items@) == sequence_items(t, start),
            source.pos() == sequence_end(t, start),
        decreases t.len() - source.pos(),
    {
        let ghost p = source.pos();
        let dash = match source.current() {
            Some(c) => c == '-',
            None => false,
        };
        if !dash {
            assert(trees(items@) + Seq::<NodeView>::empty() =~= trees(items@));
            break;
        }
        source.next();
        proof {
            lemma_skip_space_bounds(t, p + 1);
        }
        skip_whitespace(source);
        let ghost vs = source.pos();
        proof {
            lemma_find_char_bounds(t, vs, '\n');
        }
        let line = read_until(source, '\n');
        let value = trimmed(&line);
        let item = classify_chars(&value);
        let ghost before = trees(items@);
        proof {
            lemma_trees_push(items@, item);
        }
        items.push(item);
        source.next();
        assert(sequence_items(t, p) == seq![item.tree()] + sequence_items(t, source.pos()));
        assert(trees(items@) + sequence_items(t, source.pos()) =~= before + sequence_items(t, p));
    }
    Node::Array(items)
}

/// Reads a mapping: one entry per line that starts with a letter or digit.
fn parse_mapping<S: ISource>(source: &mut S) -> (r: Node)
    ensures
        final(source).text() == old(source).text(),
        r.tree() == NodeView::Dictionary(
            mapping_entries(old(source).text(), old(source).pos(), Map::empty()),
        ),
        final(source).pos() == mapping_end(old(source).text(), old(source).pos()),
{
    let ghost t = source.text();
    let ghost start = source.pos();
    let mut map = Dict::new();
    loop
        invariant
            source.text() == t,
            mapping_entries(t, source.pos(), map.tree()) == mapping_entries(t, start, Map::empty()),
            start <= t.len() ==> source.pos() <= t.len(),
            start > t.len() ==> source.pos() == start,
        ensures
            source.text() == t,
            map.tree() == mapping_entries(t, start, Map::empty()),
            source.pos() == mapping_end(t, start),
        decreases t.len() - source.pos(),
    {
        let ghost p = source.pos();
        let ghost m = map.tree();
        match source.current() {
            None => {
                break;
            },
            Some(c) => {
                if is_alphanumeric(c) {
                    proof {
                        lemma_find_char_bounds(t, p, ':');
                    }
                    let key_text = read_until(source, ':');
                    let ghost ke = source.pos();
                    source.next();
                    proof {
                        lemma_skip_space_bounds(t, step(t, ke));
                    }
                    skip_whitespace(source);
                    let ghost vs = source.pos();
                    proof {
                        lemma_find_char_bounds(t, vs, '\n');
                    }
                    let line = read_until(source, '\n');
                    let key = string_from_chars(trimmed(&key_text).as_slice());
                    let value = classify_chars(&trimmed(&line));
                    map.insert(key, value);
                }
                source.next();
            },
        }
    }
    Node::Dictionary(map)
}

/// Parses the text of `source` from its cursor on.
///
/// After leading whitespace, the first character decides: the end of the
/// text gives `Node::Null`, `-` a sequence (`Node::Array`), a letter or digit
/// a mapping (`Node::Dictionary`), and any other character
/// `ParseError::UnexpectedCharacter`.
pub fn parse<S: ISource>(source: &mut S) -> (r: Result<Node, ParseError>)
    ensures
        final(source).text() == old(source).text(),
        parse_outcome(old(source).text(), old(source).pos(), r),
        final(source).pos() == parse_end(old(source).text(), old(source).pos()),
{
    skip_whitespace(source);
    match source.current() {
        None => Ok(Node::Null),
        Some(c) => {
            if c == '-' {
                Ok(parse_sequence(source))
            } else if is_alphanumeric(c) {
                Ok(parse_mapping(source))
            } else {
                Err(ParseError::UnexpectedCharacter(c))
            }
        },
    }
}

/// Classifies a scalar text as it stands: `null` and `~` give `Node::Null`,
/// `true` and `false` booleans, integer text `Numeric::Integer`, float text
/// `Numeric::Float`, and any other text `Node::Str`.
pub fn parse_scalar(value: &str) -> (r: Node)
    ensures
        r.tree() == classify(value@),
{
    classify_chars(&chars_of(value))
}

/// Whether two parse results are the same tree, or the same error.
pub open spec fn same_outcome(r1: Result<Node, ParseError>, r2: Result<Node, ParseError>) -> bool {
    match (r1, r2) {
        (Ok(a), Ok(b)) => a.tree() == b.tree(),
        (Err(e1), Err(e2)) => e1 == e2,
        _ => false,
    }
}

/// Parsing is idempotent: two parses of the same text, each from a source
/// reset to its start, give structurally equal trees, or the same error.
pub proof fn lemma_parse_idempotent(t: Seq<char>, r1: Result<Node, ParseError>, r2: Result<Node, ParseError>)
    requires
        parse_outcome(t, 0, r1),
        parse_outcome(t, 0, r2),
    ensures
        same_outcome(r1, r2),
{
}

} // verus!
