//! One permissive structural tree over authored text.
//!
//! This layer owns delimiters and application shape only. Semantic
//! alternatives are selected later from the expected bootstrap schema, never
//! from spelling. Positions are character offsets into the source.
use vstd::prelude::*;

use crate::text::{byte_len, string_of, utf8_len, utf8_width};
use super::error::BootstrapReadError;

verus! {

/// A half-open range of byte offsets in the source.
#[derive(Clone, Copy, Debug, PartialEq, Eq, Structural)]
pub struct SourceBound {
    pub start: usize,
    pub end: usize,
}

impl SourceBound {
    /// First byte offset.
    pub fn start(&self) -> (r: usize)
        ensures
            r == self.start,
    {
        self.start
    }

    /// One past the last byte offset.
    pub fn end(&self) -> (r: usize)
        ensures
            r == self.end,
    {
        self.end
    }
}

/// The four delimited product forms.
#[derive(Clone, Copy, Debug, PartialEq, Eq, Structural)]
pub enum Delimiter {
    Brace,
    Square,
    Parenthesis,
    Guillemets,
}

/// One structural node: an atom, a dot application, an adjacent angle
/// application, or a delimited product.
#[derive(Debug)]
pub enum SyntaxNode {
    Atom { text: String, bound: SourceBound },
    Application { head: String, head_bound: SourceBound, payload: Box<SyntaxNode>, bound: SourceBound },
    AngleApplication { head: String, head_bound: SourceBound, arguments: Vec<SyntaxNode>, bound: SourceBound },
    Delimited { delimiter: Delimiter, items: Vec<SyntaxNode>, bound: SourceBound },
}

/// The mathematical shape of a syntax node.
pub ghost enum SyntaxTree {
    Atom { text: Seq<char>, bound: SourceBound },
    Application { head: Seq<char>, head_bound: SourceBound, payload: Box<SyntaxTree>, bound: SourceBound },
    AngleApplication { head: Seq<char>, head_bound: SourceBound, arguments: Seq<SyntaxTree>, bound: SourceBound },
    Delimited { delimiter: Delimiter, items: Seq<SyntaxTree>, bound: SourceBound },
}

/// The shape of an exec syntax node.
pub open spec fn tree_of(node: SyntaxNode) -> SyntaxTree
    decreases node,
{
    match node {
        SyntaxNode::Atom { text, bound } => SyntaxTree::Atom { text: text@, bound },
        SyntaxNode::Application { head, head_bound, payload, bound } => SyntaxTree::Application {
            head: head@,
            head_bound,
            payload: Box::new(tree_of(*payload)),
            bound,
        },
        SyntaxNode::AngleApplication { head, head_bound, arguments, bound } => SyntaxTree::AngleApplication {
            head: head@,
            head_bound,
            arguments: trees_of(arguments@),
            bound,
        },
        SyntaxNode::Delimited { delimiter, items, bound } => SyntaxTree::Delimited {
            delimiter,
            items: trees_of(items@),
            bound,
        },
    }
}

/// The shapes of a sequence of exec syntax nodes.
pub open spec fn trees_of(nodes: Seq<SyntaxNode>) -> Seq<SyntaxTree>
    decreases nodes,
{
    if nodes.len() == 0 {
        Seq::empty()
    } else {
        seq![tree_of(nodes[0])] + trees_of(nodes.subrange(1, nodes.len() as int))
    }
}

/// The source range a tree covers.
pub open spec fn tree_bound(tree: SyntaxTree) -> SourceBound {
    match tree {
        SyntaxTree::Atom { bound, .. } => bound,
        SyntaxTree::Application { bound, .. } => bound,
        SyntaxTree::AngleApplication { bound, .. } => bound,
        SyntaxTree::Delimited { bound, .. } => bound,
    }
}

/// The human description of a tree's structural kind.
pub open spec fn tree_kind_name(tree: SyntaxTree) -> &'static str {
    match tree {
        SyntaxTree::Atom { .. } => "atom",
        SyntaxTree::Application { .. } => "application",
        SyntaxTree::AngleApplication { .. } => "Shape application",
        SyntaxTree::Delimited { delimiter, .. } => match delimiter {
            Delimiter::Brace => "brace product",
            Delimiter::Square => "square vector",
            Delimiter::Parenthesis => "parenthesized product",
            Delimiter::Guillemets => "Trait requirement",
        },
    }
}

impl SyntaxNode {
    /// The source range this node covers.
    pub fn bound(&self) -> (r: SourceBound)
        ensures
            r == tree_bound(tree_of(*self)),
    {
        match self {
            SyntaxNode::Atom { bound, .. } => *bound,
            SyntaxNode::Application { bound, .. } => *bound,
            SyntaxNode::AngleApplication { bound, .. } => *bound,
            SyntaxNode::Delimited { bound, .. } => *bound,
        }
    }

    /// The human description of this node's structural kind.
    pub fn kind_name(&self) -> (r: &'static str)
        ensures
            r == tree_kind_name(tree_of(*self)),
    {
        match self {
            SyntaxNode::Atom { .. } => "atom",
            SyntaxNode::Application { .. } => "application",
            SyntaxNode::AngleApplication { .. } => "Shape application",
            SyntaxNode::Delimited { delimiter, .. } => match delimiter {
                Delimiter::Brace => "brace product",
                Delimiter::Square => "square vector",
                Delimiter::Parenthesis => "parenthesized product",
                Delimiter::Guillemets => "Trait requirement",
            },
        }
    }
}

/// The byte offset of character position `i` of `s`, clamped to the text.
pub open spec fn byte_offset(s: Seq<char>, i: int) -> nat {
    if i <= 0 {
        0
    } else if i >= s.len() {
        utf8_len(s)
    } else {
        utf8_len(s.take(i))
    }
}

/// The byte range of the characters `s[i..j]`.
pub open spec fn byte_bound(s: Seq<char>, i: int, j: int) -> SourceBound {
    SourceBound { start: byte_offset(s, i) as usize, end: byte_offset(s, j) as usize }
}

/// `offsets` holds the byte offset of every character position of `s`,
/// end included.
pub open spec fn offsets_of(s: Seq<char>, offsets: Seq<usize>) -> bool {
    &&& offsets.len() == s.len() + 1
    &&& forall|k: int| 0 <= k <= s.len() ==> offsets[k] == byte_offset(s, k)
}

// ---------------------------------------------------------------------------
// The grammar
// ---------------------------------------------------------------------------

/// Whitespace separating items.
pub open spec fn is_space(c: char) -> bool {
    c == ' ' || c == '\t' || c == '\n' || c == '\r'
}

/// Characters that never belong to an atom: whitespace, boundaries, the
/// application glyph, the comment introducer, and the reserved set.
pub open spec fn is_structural_char(c: char) -> bool {
    is_space(c) || c == '(' || c == ')' || c == '[' || c == ']' || c == '{' || c == '}' || c == '<'
        || c == '>' || c == '«' || c == '»' || c == '.' || c == ';' || c == '"' || c == '“'
        || c == '”' || c == '|' || c == '$'
}

/// The closing character of an opening boundary, if it is one.
pub open spec fn closer_of(c: char) -> Option<(char, Delimiter)> {
    if c == '(' {
        Some((')', Delimiter::Parenthesis))
    } else if c == '[' {
        Some((']', Delimiter::Square))
    } else if c == '{' {
        Some(('}', Delimiter::Brace))
    } else if c == '«' {
        Some(('»', Delimiter::Guillemets))
    } else {
        None
    }
}

/// Skip whitespace and `;;` line comments starting at `i`; `in_comment` means
/// a comment is open and runs to the next line break.
pub open spec fn skip_trivia(s: Seq<char>, i: int, in_comment: bool) -> int
    decreases s.len() - i,
{
    if i < 0 || i >= s.len() {
        i
    } else if in_comment {
        skip_trivia(s, i + 1, s[i] != '\n')
    } else if is_space(s[i]) {
        skip_trivia(s, i + 1, false)
    } else if s[i] == ';' && i + 1 < s.len() && s[i + 1] == ';' {
        skip_trivia(s, i + 2, true)
    } else {
        i
    }
}

/// The end of the maximal atom run starting at `i`.
pub open spec fn atom_end(s: Seq<char>, i: int) -> int
    decreases s.len() - i,
{
    if 0 <= i < s.len() && !is_structural_char(s[i]) {
        atom_end(s, i + 1)
    } else {
        i
    }
}

/// Parse one node starting exactly at `i`; on success, the tree and the
/// offset just past it. A failure carries the offending offset.
pub open spec fn parse_node(s: Seq<char>, i: int) -> Result<(SyntaxTree, int), int>
    decreases s.len() - i, 0int,
{
    if i < 0 || i >= s.len() {
        Err(i)
    } else {
        match closer_of(s[i]) {
            Some((close, delimiter)) => match parse_items(s, i + 1, close) {
                Ok((items, end)) => Ok((
                    SyntaxTree::Delimited { delimiter, items, bound: byte_bound(s, i, end) },
                    end,
                )),
                Err(at) => Err(at),
            },
            None => {
                let h = atom_end(s, i);
                if h <= i || h > s.len() {
                    Err(i)
                } else {
                    let head = s.subrange(i, h);
                    let head_bound = byte_bound(s, i, h);
                    if h < s.len() && s[h] == '.' {
                        match parse_node(s, h + 1) {
                            Ok((payload, end)) => Ok((
                                SyntaxTree::Application {
                                    head,
                                    head_bound,
                                    payload: Box::new(payload),
                                    bound: byte_bound(s, i, end),
                                },
                                end,
                            )),
                            Err(at) => Err(at),
                        }
                    } else if h < s.len() && s[h] == '<' {
                        match parse_items(s, h + 1, '>') {
                            Ok((arguments, end)) => if arguments.len() == 0 {
                                Err(h)
                            } else {
                                Ok((
                                    SyntaxTree::AngleApplication {
                                        head,
                                        head_bound,
                                        arguments,
                                        bound: byte_bound(s, i, end),
                                    },
                                    end,
                                ))
                            },
                            Err(at) => Err(at),
                        }
                    } else {
                        Ok((SyntaxTree::Atom { text: head, bound: head_bound }, h))
                    }
                }
            },
        }
    }
}

/// Parse trivia-separated items from `j` up to and including `close`; on
/// success, the items and the offset just past `close`.
pub open spec fn parse_items(s: Seq<char>, j: int, close: char) -> Result<(Seq<SyntaxTree>, int), int>
    decreases s.len() - j, 1int,
{
    let k = skip_trivia(s, j, false);
    if j < 0 || k < j || k > s.len() {
        Err(j)
    } else if k == s.len() {
        Err(k)
    } else if s[k] == close {
        Ok((Seq::empty(), k + 1))
    } else {
        match parse_node(s, k) {
            Ok((tree, e)) => if e <= k || e > s.len() {
                Err(k)
            } else {
                match parse_items(s, e, close) {
                    Ok((rest, end)) => Ok((seq![tree] + rest, end)),
                    Err(at) => Err(at),
                }
            },
            Err(at) => Err(at),
        }
    }
}

/// Parse the trivia-separated top-level nodes from `j` to the end of the text.
pub open spec fn parse_roots(s: Seq<char>, j: int) -> Result<Seq<SyntaxTree>, int>
    decreases s.len() - j,
{
    let k = skip_trivia(s, j, false);
    if j < 0 || k < j || k > s.len() {
        Err(j)
    } else if k == s.len() {
        Ok(Seq::empty())
    } else {
        match parse_node(s, k) {
            Ok((tree, e)) => if e <= k || e > s.len() {
                Err(k)
            } else {
                match parse_roots(s, e) {
                    Ok(rest) => Ok(seq![tree] + rest),
                    Err(at) => Err(at),
                }
            },
            Err(at) => Err(at),
        }
    }
}

} // verus!

verus! {

/// The shapes of a node sequence, element by element.
pub proof fn lemma_trees_of(nodes: Seq<SyntaxNode>)
    ensures
        trees_of(nodes).len() == nodes.len(),
        forall|i: int| 0 <= i < nodes.len() ==> #[trigger] trees_of(nodes)[i] == tree_of(nodes[i]),
    decreases nodes.len(),
{
    if nodes.len() > 0 {
        let rest = nodes.subrange(1, nodes.len() as int);
        lemma_trees_of(rest);
        assert forall|i: int| 0 <= i < nodes.len() implies #[trigger] trees_of(nodes)[i] == tree_of(nodes[i]) by {
            if i > 0 {
                assert(trees_of(nodes)[i] == trees_of(rest)[i - 1]);
                assert(rest[i - 1] == nodes[i]);
            }
        }
    }
}

fn skip_trivia_exec(s: &Vec<char>, i: usize) -> (r: usize)
    requires
        i <= s@.len(),
    ensures
        r == skip_trivia(s@, i as int, false),
        i <= r <= s@.len(),
{
    let mut k = i;
    let mut in_comment = false;
    while k < s.len()
        invariant
            i <= k <= s@.len(),
            skip_trivia(s@, i as int, false) == skip_trivia(s@, k as int, in_comment),
        decreases s@.len() - k,
    {
        let c = s[k];
        if in_comment {
            in_comment = c != '\n';
            k = k + 1;
        } else if c == ' ' || c == '\t' || c == '\n' || c == '\r' {
            k = k + 1;
        } else if c == ';' && k + 1 < s.len() && s[k + 1] == ';' {
            in_comment = true;
            k = k + 2;
        } else {
            return k;
        }
    }
    k
}

fn is_structural_char_exec(c: char) -> (r: bool)
    ensures
        r == is_structural_char(c),
{
    c == ' ' || c == '\t' || c == '\n' || c == '\r' || c == '(' || c == ')' || c == '[' || c == ']'
        || c == '{' || c == '}' || c == '<' || c == '>' || c == '«' || c == '»' || c == '.' || c == ';'
        || c == '"' || c == '“' || c == '”' || c == '|' || c == '$'
}

fn atom_end_exec(s: &Vec<char>, i: usize) -> (r: usize)
    requires
        i <= s@.len(),
    ensures
        r == atom_end(s@, i as int),
        i <= r <= s@.len(),
{
    let mut k = i;
    while k < s.len() && !is_structural_char_exec(s[k])
        invariant
            i <= k <= s@.len(),
            atom_end(s@, i as int) == atom_end(s@, k as int),
        decreases s@.len() - k,
    {
        k = k + 1;
    }
    k
}

fn closer_of_exec(c: char) -> (r: Option<(char, Delimiter)>)
    ensures
        r == closer_of(c),
{
    if c == '(' {
        Some((')', Delimiter::Parenthesis))
    } else if c == '[' {
        Some((']', Delimiter::Square))
    } else if c == '{' {
        Some(('}', Delimiter::Brace))
    } else if c == '«' {
        Some(('»', Delimiter::Guillemets))
    } else {
        None
    }
}

/// The characters `s[from..to]` as a string.
fn substring(s: &Vec<char>, from: usize, to: usize) -> (r: String)
    requires
        from <= to <= s@.len(),
    ensures
        r@ == s@.subrange(from as int, to as int),
{
    let mut out: Vec<char> = Vec::new();
    let mut k = from;
    while k < to
        invariant
            from <= k <= to <= s@.len(),
            out@ == s@.subrange(from as int, k as int),
        decreases to - k,
    {
        out.push(s[k]);
        k = k + 1;
    }
    string_of(&out)
}

fn prepend_node(node: SyntaxNode, rest: Vec<SyntaxNode>) -> (r: Vec<SyntaxNode>)
    ensures
        trees_of(r@) == seq![tree_of(node)] + trees_of(rest@),
{
    let ghost t = tree_of(node);
    let mut out = rest;
    out.insert(0, node);
    assert(out@.subrange(1, out@.len() as int) =~= rest@);
    assert(out@[0] == node);
    out
}

fn parse_node_exec(s: &Vec<char>, offsets: &Vec<usize>, i: usize) -> (r: Result<(SyntaxNode, usize), usize>)
    requires
        offsets_of(s@, offsets@),
    ensures
        r matches Ok((_, end)) ==> end <= s@.len(),
        match (r, parse_node(s@, i as int)) {
            (Ok((node, end)), Ok((tree, e))) => tree_of(node) == tree && end == e,
            (Err(a), Err(b)) => a == b,
            _ => false,
        },
    decreases s@.len() - i, 0int,
{
    if i >= s.len() {
        return Err(i);
    }
    match closer_of_exec(s[i]) {
        Some((close, delimiter)) => match parse_items_exec(s, offsets, i + 1, close) {
            Ok((items, end)) => {
                let bound = SourceBound { start: offsets[i], end: offsets[end] };
                let node = SyntaxNode::Delimited { delimiter, items, bound };
                Ok((node, end))
            },
            Err(at) => Err(at),
        },
        None => {
            let h = atom_end_exec(s, i);
            if h <= i {
                return Err(i);
            }
            let head = substring(s, i, h);
            let head_bound = SourceBound { start: offsets[i], end: offsets[h] };
            if h < s.len() && s[h] == '.' {
                match parse_node_exec(s, offsets, h + 1) {
                    Ok((payload, end)) => {
                        let node = SyntaxNode::Application {
                            head,
                            head_bound,
                            payload: Box::new(payload),
                            bound: SourceBound { start: offsets[i], end: offsets[end] },
                        };
                        Ok((node, end))
                    },
                    Err(at) => Err(at),
                }
            } else if h < s.len() && s[h] == '<' {
                match parse_items_exec(s, offsets, h + 1, '>') {
                    Ok((arguments, end)) => {
                        proof {
                            lemma_trees_of(arguments@);
                        }
                        if arguments.len() == 0 {
                            Err(h)
                        } else {
                            let node = SyntaxNode::AngleApplication {
                                head,
                                head_bound,
                                arguments,
                                bound: SourceBound { start: offsets[i], end: offsets[end] },
                            };
                            Ok((node, end))
                        }
                    },
                    Err(at) => Err(at),
                }
            } else {
                Ok((SyntaxNode::Atom { text: head, bound: head_bound }, h))
            }
        },
    }
}

fn parse_items_exec(s: &Vec<char>, offsets: &Vec<usize>, j: usize, close: char) -> (r: Result<
    (Vec<SyntaxNode>, usize),
    usize,
>)
    requires
        offsets_of(s@, offsets@),
    ensures
        r matches Ok((_, end)) ==> end <= s@.len(),
        match (r, parse_items(s@, j as int, close)) {
            (Ok((items, end)), Ok((trees, e))) => trees_of(items@) == trees && end == e,
            (Err(a), Err(b)) => a == b,
            _ => false,
        },
    decreases s@.len() - j, 1int,
{
    if j > s.len() {
        return Err(j);
    }
    let k = skip_trivia_exec(s, j);
    if k == s.len() {
        return Err(k);
    }
    if s[k] == close {
        return Ok((Vec::new(), k + 1));
    }
    match parse_node_exec(s, offsets, k) {
        Ok((node, e)) => {
            if e <= k || e > s.len() {
                return Err(k);
            }
            match parse_items_exec(s, offsets, e, close) {
                Ok((rest, end)) => Ok((prepend_node(node, rest), end)),
                Err(at) => Err(at),
            }
        },
        Err(at) => Err(at),
    }
}

/// Parse a whole source text into its trivia-separated top-level nodes.
pub fn parse_document(source: &str) -> (r: Result<Vec<SyntaxNode>, BootstrapReadError>)
    ensures
        match (r, parse_roots(source@, 0)) {
            (Ok(roots), Ok(trees)) => trees_of(roots@) == trees,
            (Err(e), Err(at)) => e matches BootstrapReadError::MalformedSource { at: a, .. } && a
                == byte_offset(source@, at),
            _ => false,
        },
{
    let s = crate::text::chars_of(source);
    let offsets = byte_offsets(&s, byte_len(source));
    match parse_roots_exec(&s, &offsets, 0) {
        Ok(roots) => Ok(roots),
        Err(at) => {
            let byte_at = if at <= s.len() {
                offsets[at]
            } else {
                offsets[s.len()]
            };
            Err(BootstrapReadError::MalformedSource { expected: "a well-formed Ethos syntax tree", at: byte_at })
        },
    }
}

/// Bytes in the UTF-8 encoding of one character.
fn utf8_width_exec(c: char) -> (r: usize)
    ensures
        r == utf8_width(c),
{
    let code = c as u32;
    if code < 0x80 {
        1
    } else if code < 0x800 {
        2
    } else if code < 0x10000 {
        3
    } else {
        4
    }
}

/// A prefix of a text never encodes longer than the text.
proof fn lemma_utf8_prefix(s: Seq<char>, k: int)
    requires
        0 <= k <= s.len(),
    ensures
        utf8_len(s.take(k)) <= utf8_len(s),
    decreases s.len() - k,
{
    if k < s.len() {
        lemma_utf8_prefix(s, k + 1);
        assert(s.take(k + 1).drop_last() =~= s.take(k));
    } else {
        assert(s.take(k) =~= s);
    }
}

/// The byte offset of every character position of `s`, given its total
/// encoded length.
fn byte_offsets(s: &Vec<char>, total: usize) -> (r: Vec<usize>)
    requires
        total == utf8_len(s@),
    ensures
        offsets_of(s@, r@),
{
    let mut out: Vec<usize> = Vec::new();
    out.push(0);
    let mut offset: usize = 0;
    let mut k: usize = 0;
    proof {
        assert(s@.take(0) =~= Seq::<char>::empty());
    }
    while k < s.len()
        invariant
            k <= s@.len(),
            total == utf8_len(s@),
            out@.len() == k + 1,
            offset == utf8_len(s@.take(k as int)),
            forall|q: int| 0 <= q <= k ==> out@[q] == utf8_len(s@.take(q)),
        decreases s@.len() - k,
    {
        proof {
            assert(s@.take(k + 1).drop_last() =~= s@.take(k as int));
            assert(s@.take(k + 1).last() == s@[k as int]);
            lemma_utf8_prefix(s@, k + 1);
        }
        offset = offset + utf8_width_exec(s[k]);
        out.push(offset);
        k = k + 1;
    }
    proof {
        assert(s@.take(s@.len() as int) =~= s@);
        assert forall|q: int| 0 <= q <= s@.len() implies out@[q] == byte_offset(s@, q) by {
            if q == 0 {
                assert(s@.take(0) =~= Seq::<char>::empty());
            }
        }
    }
    out
}

fn parse_roots_exec(s: &Vec<char>, offsets: &Vec<usize>, j: usize) -> (r: Result<Vec<SyntaxNode>, usize>)
    requires
        offsets_of(s@, offsets@),
    ensures
        match (r, parse_roots(s@, j as int)) {
            (Ok(roots), Ok(trees)) => trees_of(roots@) == trees,
            (Err(a), Err(b)) => a == b,
            _ => false,
        },
    decreases s@.len() - j,
{
    if j > s.len() {
        return Err(j);
    }
    let k = skip_trivia_exec(s, j);
    if k == s.len() {
        return Ok(Vec::new());
    }
    match parse_node_exec(s, offsets, k) {
        Ok((node, e)) => {
            if e <= k || e > s.len() {
                return Err(k);
            }
            match parse_roots_exec(s, offsets, e) {
                Ok(rest) => Ok(prepend_node(node, rest)),
                Err(at) => Err(at),
            }
        },
        Err(at) => Err(at),
    }
}

} // verus!

verus! {

/// The two addressed structural identities the reader's grammar is keyed by.
#[derive(Clone, Copy, Debug, PartialEq, Eq, Structural)]
pub struct BootstrapGrammarIdentities {
    pub document: crate::identity::EncodedName,
    pub syntax: crate::identity::EncodedName,
}

/// The shared bootstrap grammar, keyed by distinct document and syntax
/// identities.
#[derive(Clone, Copy, Debug)]
pub struct BootstrapGrammar {
    identities: BootstrapGrammarIdentities,
}

impl BootstrapGrammar {
    pub closed spec fn spec_identities(&self) -> BootstrapGrammarIdentities {
        self.identities
    }

    /// Build the grammar; the document and syntax identities must differ.
    pub fn build(identities: BootstrapGrammarIdentities) -> (r: Result<Self, super::error::BootstrapBuildError>)
        ensures
            r is Ok <==> identities.document != identities.syntax,
            r matches Ok(g) ==> g.spec_identities() == identities,
            r matches Err(e) ==> e == super::error::BootstrapBuildError::DuplicateGrammarIdentity,
    {
        if identities.document == identities.syntax {
            return Err(super::error::BootstrapBuildError::DuplicateGrammarIdentity);
        }
        Ok(BootstrapGrammar { identities })
    }

    pub fn identities(&self) -> (r: BootstrapGrammarIdentities)
        ensures
            r == self.spec_identities(),
    {
        self.identities
    }

    /// Discover the top-level structure of a source text.
    pub fn plan(&self, source: &str) -> (r: Result<Vec<SyntaxNode>, BootstrapReadError>)
        ensures
            match (r, parse_roots(source@, 0)) {
                (Ok(roots), Ok(trees)) => trees_of(roots@) == trees,
                (Err(_), Err(_)) => true,
                _ => false,
            },
            r matches Ok(roots) ==> all_anchored(source@, trees_of(roots@)),
    {
        proof {
            lemma_roots_anchored(source@, 0);
        }
        parse_document(source)
    }
}

} // verus!

verus! {

/// `text` is the source between two character positions whose byte offsets
/// form `bound`: slicing the source's bytes by `bound` gives `text`.
pub open spec fn spans(s: Seq<char>, text: Seq<char>, bound: SourceBound) -> bool {
    exists|i: int, j: int|
        0 <= i <= j <= s.len() && text == s.subrange(i, j) && bound == #[trigger] byte_bound(s, i, j)
}

/// Every atom text and application head of a tree spans its own bound.
pub open spec fn anchored(s: Seq<char>, tree: SyntaxTree) -> bool
    decreases tree,
{
    match tree {
        SyntaxTree::Atom { text, bound } => spans(s, text, bound),
        SyntaxTree::Application { head, head_bound, payload, .. } => spans(s, head, head_bound)
            && anchored(s, *payload),
        SyntaxTree::AngleApplication { head, head_bound, arguments, .. } => spans(s, head, head_bound)
            && all_anchored(s, arguments),
        SyntaxTree::Delimited { items, .. } => all_anchored(s, items),
    }
}

pub open spec fn all_anchored(s: Seq<char>, trees: Seq<SyntaxTree>) -> bool
    decreases trees,
{
    if trees.len() == 0 {
        true
    } else {
        anchored(s, trees[0]) && all_anchored(s, trees.subrange(1, trees.len() as int))
    }
}

proof fn lemma_parse_anchored(s: Seq<char>, i: int)
    ensures
        parse_node(s, i) matches Ok((tree, _)) ==> anchored(s, tree),
    decreases s.len() - i, 0int,
{
    if 0 <= i < s.len() {
        match closer_of(s[i]) {
            Some((close, _)) => {
                lemma_items_anchored(s, i + 1, close);
            },
            None => {
                let h = atom_end(s, i);
                if i < h <= s.len() {
                    assert(byte_bound(s, i, h) == byte_bound(s, i, h));
                    if h < s.len() && s[h] == '.' {
                        lemma_parse_anchored(s, h + 1);
                    } else if h < s.len() && s[h] == '<' {
                        lemma_items_anchored(s, h + 1, '>');
                    }
                }
            },
        }
    }
}

proof fn lemma_items_anchored(s: Seq<char>, j: int, close: char)
    ensures
        parse_items(s, j, close) matches Ok((trees, _)) ==> all_anchored(s, trees),
    decreases s.len() - j, 1int,
{
    let k = skip_trivia(s, j, false);
    if 0 <= j && j <= k < s.len() && s[k] != close {
        lemma_parse_anchored(s, k);
        if let Ok((tree, e)) = parse_node(s, k) {
            if k < e <= s.len() {
                lemma_items_anchored(s, e, close);
                if let Ok((rest, _)) = parse_items(s, e, close) {
                    let all = seq![tree] + rest;
                    assert(all[0] == tree);
                    assert(all.subrange(1, all.len() as int) =~= rest);
                }
            }
        }
    } else if 0 <= j && j <= k < s.len() {
        assert(all_anchored(s, Seq::<SyntaxTree>::empty()));
    }
}

/// Every atom text and application head the parser yields is exactly the
/// source between the byte offsets of its bound.
pub proof fn lemma_roots_anchored(s: Seq<char>, j: int)
    ensures
        parse_roots(s, j) matches Ok(trees) ==> all_anchored(s, trees),
    decreases s.len() - j,
{
    let k = skip_trivia(s, j, false);
    if 0 <= j && j <= k < s.len() {
        lemma_parse_anchored(s, k);
        if let Ok((tree, e)) = parse_node(s, k) {
            if k < e <= s.len() {
                lemma_roots_anchored(s, e);
                if let Ok(rest) = parse_roots(s, e) {
                    let all = seq![tree] + rest;
                    assert(all[0] == tree);
                    assert(all.subrange(1, all.len() as int) =~= rest);
                }
            }
        }
    }
}

} // verus!
