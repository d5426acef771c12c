//! The parser: consumes the token sequence depth-first, turning delimiter
//! pairs into nested tree nodes and text tokens into leaves. An opening
//! delimiter is matched to the next token of the identical kind, regardless
//! of the nesting of other kinds; with no closer in the rest of the stream it
//! silently absorbs everything after it as its content. A bold-or-italic
//! token reaching dispatch is the single fatal condition, surfaced as a typed
//! error.

use vstd::prelude::*;

use crate::tokenizer::{view_tokens, SpecToken, Token};

verus! {

/// A node of the abstract syntax tree: a literal text leaf, or an internal
/// node holding the fully parsed content found between a matching pair of
/// delimiters of its kind.
#[derive(Debug, Eq, PartialEq)]
pub enum ASTNode {
    Text(String),
    Bold(Vec<ASTNode>),
    Italic(Vec<ASTNode>),
    Strikethrough(Vec<ASTNode>),
    Spoiler(Vec<ASTNode>),
}

/// The mathematical counterpart of `ASTNode`.
pub enum SpecAst {
    Text(Seq<char>),
    Bold(Seq<SpecAst>),
    Italic(Seq<SpecAst>),
    Strikethrough(Seq<SpecAst>),
    Spoiler(Seq<SpecAst>),
}

impl View for ASTNode {
    type V = SpecAst;

    open spec fn view(&self) -> SpecAst {
        node_view(*self)
    }
}

/// The mathematical value of a node: leaves keep their characters, internal
/// nodes keep their kind over the views of their children.
pub open spec fn node_view(n: ASTNode) -> SpecAst
    decreases n,
{
    match n {
        ASTNode::Text(_) => SpecAst::Text(n->Text_0@),
        ASTNode::Bold(_) => SpecAst::Bold(children_view(n->Bold_0@)),
        ASTNode::Italic(_) => SpecAst::Italic(children_view(n->Italic_0@)),
        ASTNode::Strikethrough(_) => SpecAst::Strikethrough(children_view(n->Strikethrough_0@)),
        ASTNode::Spoiler(_) => SpecAst::Spoiler(children_view(n->Spoiler_0@)),
    }
}

/// The views of a node sequence, element by element, written as a recursion
/// so that it can stand under `node_view`.
pub open spec fn children_view(nodes: Seq<ASTNode>) -> Seq<SpecAst>
    decreases nodes,
{
    if nodes.len() == 0 {
        Seq::empty()
    } else {
        seq![node_view(nodes[0])] + children_view(nodes.skip(1))
    }
}

/// The view of a node sequence, element by element.
pub open spec fn view_nodes(nodes: Seq<ASTNode>) -> Seq<SpecAst> {
    nodes.map_values(|n: ASTNode| n@)
}

/// The recursion `children_view` and the element-wise map `view_nodes` agree.
pub proof fn lemma_children_view(nodes: Seq<ASTNode>)
    ensures
        children_view(nodes) == view_nodes(nodes),
    decreases nodes.len(),
{
    if nodes.len() == 0 {
        assert(children_view(nodes) =~= view_nodes(nodes));
    } else {
        lemma_children_view(nodes.skip(1));
        assert(children_view(nodes) =~= view_nodes(nodes));
    }
}

/// The single fatal condition of parsing: a token kind that the dispatch
/// step does not handle reached it.
#[derive(Debug, PartialEq, Eq, Structural, Clone, Copy)]
pub enum ParseError {
    UnsupportedToken,
}

/// The four delimiter kinds that open and close an internal node.
#[derive(Debug, PartialEq, Eq, Structural, Clone, Copy)]
pub enum DelimKind {
    Bold,
    Italic,
    Strikethrough,
    Spoiler,
}

/// The delimiter kind of a token, if it has one: text and the ambiguous
/// bold-or-italic marker have none.
pub open spec fn spec_delim_kind(t: SpecToken) -> Option<DelimKind> {
    match t {
        SpecToken::Bold => Some(DelimKind::Bold),
        SpecToken::Italic => Some(DelimKind::Italic),
        SpecToken::Strikethrough => Some(DelimKind::Strikethrough),
        SpecToken::Spoiler => Some(DelimKind::Spoiler),
        SpecToken::BoldOrItalic => None,
        SpecToken::Text(_) => None,
    }
}

/// Whether a token is the delimiter of the given kind.
pub open spec fn is_delim(t: SpecToken, k: DelimKind) -> bool {
    spec_delim_kind(t) == Some(k)
}

/// The delimiter token of a kind.
pub open spec fn delim_token(k: DelimKind) -> SpecToken {
    match k {
        DelimKind::Bold => SpecToken::Bold,
        DelimKind::Italic => SpecToken::Italic,
        DelimKind::Strikethrough => SpecToken::Strikethrough,
        DelimKind::Spoiler => SpecToken::Spoiler,
    }
}

/// The internal node of a kind, wrapping the given children.
pub open spec fn make_node(k: DelimKind, children: Seq<SpecAst>) -> SpecAst {
    match k {
        DelimKind::Bold => SpecAst::Bold(children),
        DelimKind::Italic => SpecAst::Italic(children),
        DelimKind::Strikethrough => SpecAst::Strikethrough(children),
        DelimKind::Spoiler => SpecAst::Spoiler(children),
    }
}

/// The position of the first delimiter of kind `k` in the token sequence.
pub open spec fn spec_find_delim(ts: Seq<SpecToken>, k: DelimKind) -> Option<int>
    decreases ts.len(),
{
    if ts.len() == 0 {
        None
    } else if is_delim(ts[0], k) {
        Some(0)
    } else {
        match spec_find_delim(ts.skip(1), k) {
            Some(j) => Some(j + 1),
            None => None,
        }
    }
}

/// What `spec_find_delim` returns: the first position holding a delimiter of
/// the kind, or nothing when no position does.
pub proof fn lemma_find_delim(ts: Seq<SpecToken>, k: DelimKind)
    ensures
        spec_find_delim(ts, k) matches Some(j) ==> 0 <= j < ts.len() && is_delim(ts[j], k) && (
        forall|m: int| 0 <= m < j ==> !is_delim(ts[m], k)),
        spec_find_delim(ts, k) is None ==> forall|m: int|
            0 <= m < ts.len() ==> !is_delim(ts[m], k),
    decreases ts.len(),
{
    if ts.len() == 0 {
    } else if is_delim(ts[0], k) {
    } else {
        lemma_find_delim(ts.skip(1), k);
        match spec_find_delim(ts.skip(1), k) {
            Some(j) => {
                assert(ts[j + 1] == ts.skip(1)[j]);
                assert forall|m: int| 0 <= m < j + 1 implies !is_delim(ts[m], k) by {
                    if m >= 1 {
                        assert(ts[m] == ts.skip(1)[m - 1]);
                    }
                }
            }
            None => {
                assert forall|m: int| 0 <= m < ts.len() implies !is_delim(ts[m], k) by {
                    if m >= 1 {
                        assert(ts[m] == ts.skip(1)[m - 1]);
                    }
                }
            }
        }
    }
}

/// The position of the first delimiter of a kind is the one `spec_find_delim`
/// returns.
pub proof fn lemma_find_delim_first(ts: Seq<SpecToken>, k: DelimKind, j: int)
    requires
        0 <= j < ts.len(),
        is_delim(ts[j], k),
        forall|m: int| 0 <= m < j ==> !is_delim(ts[m], k),
    ensures
        spec_find_delim(ts, k) == Some(j),
{
    lemma_find_delim(ts, k);
    match spec_find_delim(ts, k) {
        Some(j2) => {
            if j2 < j {
                assert(!is_delim(ts[j2], k));
            } else if j2 > j {
                assert(!is_delim(ts[j], k));
            }
        }
        None => {
            assert(!is_delim(ts[j], k));
        }
    }
}

/// The parse of a token sequence: text tokens become leaves; a handled
/// delimiter opens a node whose children are the parse of the tokens up to
/// (and not including) the next token of the same kind, or of all remaining
/// tokens when no such closer exists; a bold-or-italic token is the fatal
/// condition.
pub open spec fn spec_parse(ts: Seq<SpecToken>) -> Result<Seq<SpecAst>, ParseError>
    decreases ts.len(), 1int,
{
    if ts.len() == 0 {
        Ok(Seq::empty())
    } else {
        match ts[0] {
            SpecToken::Text(text) => match spec_parse(ts.skip(1)) {
                Ok(rest) => Ok(seq![SpecAst::Text(text)] + rest),
                Err(e) => Err(e),
            },
            SpecToken::BoldOrItalic => Err(ParseError::UnsupportedToken),
            SpecToken::Bold => spec_parse_delim(DelimKind::Bold, ts),
            SpecToken::Italic => spec_parse_delim(DelimKind::Italic, ts),
            SpecToken::Strikethrough => spec_parse_delim(DelimKind::Strikethrough, ts),
            SpecToken::Spoiler => spec_parse_delim(DelimKind::Spoiler, ts),
        }
    }
}

/// The parse at an opening delimiter of kind `k`, standing at the front of
/// `ts`: the scan to the next token of the same kind bounds the children;
/// the closer itself is consumed and belongs to neither side.
pub open spec fn spec_parse_delim(k: DelimKind, ts: Seq<SpecToken>) -> Result<
    Seq<SpecAst>,
    ParseError,
>
    decreases ts.len(), 0int,
        when ts.len() > 0
        via spec_parse_delim_decreases
{
    match spec_find_delim(ts.skip(1), k) {
        Some(j) => match spec_parse(ts.skip(1).take(j)) {
            Ok(children) => match spec_parse(ts.skip(1).skip(j + 1)) {
                Ok(rest) => Ok(seq![make_node(k, children)] + rest),
                Err(e) => Err(e),
            },
            Err(e) => Err(e),
        },
        None => match spec_parse(ts.skip(1)) {
            Ok(children) => Ok(seq![make_node(k, children)]),
            Err(e) => Err(e),
        },
    }
}

#[via_fn]
proof fn spec_parse_delim_decreases(k: DelimKind, ts: Seq<SpecToken>) {
    lemma_find_delim(ts.skip(1), k);
}

/// The view of a parse result: the node sequence element by element on
/// success, the same error on failure.
pub open spec fn result_view(r: Result<Vec<ASTNode>, ParseError>) -> Result<
    Seq<SpecAst>,
    ParseError,
> {
    match r {
        Ok(nodes) => Ok(view_nodes(nodes@)),
        Err(e) => Err(e),
    }
}

impl ASTNode {
    /// The name of a node's kind, as the serialized form of the tree carries
    /// it in its `type` field.
    pub fn get_name(&self) -> (r: &'static str)
        ensures
            r@ == spec_name(self@),
    {
        match self {
            ASTNode::Text(_) => "text",
            ASTNode::Bold(_) => "bold",
            ASTNode::Italic(_) => "italic",
            ASTNode::Strikethrough(_) => "strikethrough",
            ASTNode::Spoiler(_) => "spoiler",
        }
    }
}

/// The name of a node's kind.
pub open spec fn spec_name(n: SpecAst) -> Seq<char> {
    match n {
        SpecAst::Text(_) => "text"@,
        SpecAst::Bold(_) => "bold"@,
        SpecAst::Italic(_) => "italic"@,
        SpecAst::Strikethrough(_) => "strikethrough"@,
        SpecAst::Spoiler(_) => "spoiler"@,
    }
}

/// The delimiter kind of a token, if it has one.
fn delim_kind(t: &Token) -> (r: Option<DelimKind>)
    ensures
        r == spec_delim_kind(t@),
{
    match t {
        Token::Bold => Some(DelimKind::Bold),
        Token::Italic => Some(DelimKind::Italic),
        Token::Strikethrough => Some(DelimKind::Strikethrough),
        Token::Spoiler => Some(DelimKind::Spoiler),
        Token::BoldOrItalic => None,
        Token::Text(_) => None,
    }
}

/// The internal node of a kind, wrapping the given children.
fn node_of_kind(k: DelimKind, children: Vec<ASTNode>) -> (n: ASTNode)
    ensures
        n@ == make_node(k, view_nodes(children@)),
{
    proof {
        lemma_children_view(children@);
    }
    match k {
        DelimKind::Bold => ASTNode::Bold(children),
        DelimKind::Italic => ASTNode::Italic(children),
        DelimKind::Strikethrough => ASTNode::Strikethrough(children),
        DelimKind::Spoiler => ASTNode::Spoiler(children),
    }
}

/// The position of the first delimiter of kind `k` in `tokens[from..end]`, if
/// one stands there.
fn find_delim(tokens: &Vec<Token>, k: DelimKind, from: usize, end: usize) -> (r: Option<usize>)
    requires
        from <= end <= tokens@.len(),
    ensures
        r matches Some(j) ==> from <= j < end && spec_find_delim(
            view_tokens(tokens@.subrange(from as int, end as int)),
            k,
        ) == Some(j - from),
        r is None ==> spec_find_delim(
            view_tokens(tokens@.subrange(from as int, end as int)),
            k,
        ) is None,
{
    let ghost ts = view_tokens(tokens@.subrange(from as int, end as int));
    let mut j: usize = from;
    while j < end
        invariant
            from <= j <= end <= tokens@.len(),
            ts == view_tokens(tokens@.subrange(from as int, end as int)),
            forall|m: int| 0 <= m < j - from ==> !is_delim(ts[m], k),
        decreases end - j,
    {
        let found = match delim_kind(&tokens[j]) {
            Some(k2) => k2 == k,
            None => false,
        };
        proof {
            assert(ts[j - from] == tokens@[j as int]@);
        }
        if found {
            proof {
                lemma_find_delim_first(ts, k, j - from);
            }
            return Some(j);
        }
        j = j + 1;
    }
    proof {
        lemma_find_delim(ts, k);
        match spec_find_delim(ts, k) {
            Some(m) => {
                assert(!is_delim(ts[m], k));
            }
            None => {}
        }
    }
    None
}

/// Balanced pair: an opening delimiter, one text token with no delimiter
/// inside, and the matching closer parse to a single internal node of that
/// kind wrapping a single text leaf, and whatever follows the pair keeps its
/// own parse: no sibling node is lost.
pub proof fn lemma_balanced_pair(k: DelimKind, text: Seq<char>, rest: Seq<SpecToken>)
    ensures
        spec_parse(seq![delim_token(k), SpecToken::Text(text), delim_token(k)] + rest) == match spec_parse(
            rest,
        ) {
            Ok(r) => Ok(seq![make_node(k, seq![SpecAst::Text(text)])] + r),
            Err(e) => Err(e),
        },
{
    let ts = seq![delim_token(k), SpecToken::Text(text), delim_token(k)] + rest;
    assert(ts[0] == delim_token(k));
    assert(is_delim(ts[0], k));
    assert(spec_parse(ts) == spec_parse_delim(k, ts));
    let s1 = ts.skip(1);
    assert(s1[0] == SpecToken::Text(text));
    assert(s1[1] == delim_token(k));
    assert(!is_delim(s1[0], k));
    lemma_find_delim_first(s1, k, 1);
    let inner = s1.take(1);
    assert(inner =~= seq![SpecToken::Text(text)]);
    assert(inner.skip(1) =~= Seq::<SpecToken>::empty());
    assert(spec_parse(inner.skip(1)) == Ok::<Seq<SpecAst>, ParseError>(Seq::empty()));
    assert(spec_parse(inner) == Ok::<Seq<SpecAst>, ParseError>(
        seq![SpecAst::Text(text)] + Seq::empty(),
    ));
    assert(seq![SpecAst::Text(text)] + Seq::<SpecAst>::empty() =~= seq![SpecAst::Text(text)]);
    assert(s1.skip(2) =~= rest);
}

/// Unterminated absorption: an opening delimiter with no closer of its kind
/// anywhere after it absorbs all remaining tokens as its children, and leaves
/// no trailing sibling.
pub proof fn lemma_unterminated(k: DelimKind, rest: Seq<SpecToken>)
    requires
        forall|m: int| 0 <= m < rest.len() ==> !is_delim(#[trigger] rest[m], k),
    ensures
        spec_parse(seq![delim_token(k)] + rest) == match spec_parse(rest) {
            Ok(children) => Ok(seq![make_node(k, children)]),
            Err(e) => Err(e),
        },
{
    let ts = seq![delim_token(k)] + rest;
    assert(ts[0] == delim_token(k));
    assert(is_delim(ts[0], k));
    assert(spec_parse(ts) == spec_parse_delim(k, ts));
    assert(ts.skip(1) =~= rest);
    lemma_find_delim(rest, k);
    match spec_find_delim(rest, k) {
        Some(j) => {
            assert(!is_delim(rest[j], k));
        }
        None => {}
    }
}

/// Whether a bold-or-italic token stands anywhere in the sequence.
pub open spec fn has_unsupported(ts: Seq<SpecToken>) -> bool {
    exists|i: int| 0 <= i < ts.len() && (#[trigger] ts[i]) is BoldOrItalic
}

/// Parsing fails exactly on the token sequences that hold a bold-or-italic
/// token, and then with the one typed error; on every other sequence it
/// returns a tree.
pub proof fn lemma_parse_err_iff_unsupported(ts: Seq<SpecToken>)
    ensures
        spec_parse(ts) is Err <==> has_unsupported(ts),
        spec_parse(ts) is Err ==> spec_parse(ts) == Err::<Seq<SpecAst>, ParseError>(
            ParseError::UnsupportedToken,
        ),
    decreases ts.len(), 1int,
{
    if ts.len() == 0 {
    } else {
        match ts[0] {
            SpecToken::Text(_) => {
                lemma_parse_err_iff_unsupported(ts.skip(1));
                assert(has_unsupported(ts.skip(1)) ==> has_unsupported(ts)) by {
                    if has_unsupported(ts.skip(1)) {
                        let i = choose|i: int|
                            0 <= i < ts.skip(1).len() && (#[trigger] ts.skip(1)[i]) is BoldOrItalic;
                        assert(ts[i + 1] == ts.skip(1)[i]);
                    }
                }
                assert(has_unsupported(ts) ==> has_unsupported(ts.skip(1))) by {
                    if has_unsupported(ts) {
                        let i = choose|i: int|
                            0 <= i < ts.len() && (#[trigger] ts[i]) is BoldOrItalic;
                        assert(i != 0);
                        assert(ts.skip(1)[i - 1] == ts[i]);
                    }
                }
            }
            SpecToken::BoldOrItalic => {
                assert(has_unsupported(ts));
            }
            SpecToken::Bold => {
                lemma_parse_delim_err_iff(DelimKind::Bold, ts);
            }
            SpecToken::Italic => {
                lemma_parse_delim_err_iff(DelimKind::Italic, ts);
            }
            SpecToken::Strikethrough => {
                lemma_parse_delim_err_iff(DelimKind::Strikethrough, ts);
            }
            SpecToken::Spoiler => {
                lemma_parse_delim_err_iff(DelimKind::Spoiler, ts);
            }
        }
    }
}

proof fn lemma_parse_delim_err_iff(k: DelimKind, ts: Seq<SpecToken>)
    requires
        ts.len() > 0,
        is_delim(ts[0], k),
    ensures
        spec_parse_delim(k, ts) is Err <==> has_unsupported(ts),
        spec_parse_delim(k, ts) is Err ==> spec_parse_delim(k, ts) == Err::<
            Seq<SpecAst>,
            ParseError,
        >(ParseError::UnsupportedToken),
    decreases ts.len(), 0int,
{
    let s1 = ts.skip(1);
    lemma_find_delim(s1, k);
    match spec_find_delim(s1, k) {
        Some(j) => {
            let inner = s1.take(j);
            let rest = s1.skip(j + 1);
            lemma_parse_err_iff_unsupported(inner);
            lemma_parse_err_iff_unsupported(rest);
            assert(has_unsupported(inner) ==> has_unsupported(ts)) by {
                if has_unsupported(inner) {
                    let i = choose|i: int|
                        0 <= i < inner.len() && (#[trigger] inner[i]) is BoldOrItalic;
                    assert(inner[i] == s1[i]);
                    assert(s1[i] == ts[i + 1]);
                }
            }
            assert(has_unsupported(rest) ==> has_unsupported(ts)) by {
                if has_unsupported(rest) {
                    let i = choose|i: int|
                        0 <= i < rest.len() && (#[trigger] rest[i]) is BoldOrItalic;
                    assert(rest[i] == s1[i + j + 1]);
                    assert(s1[i + j + 1] == ts[i + j + 2]);
                }
            }
            assert(has_unsupported(ts) ==> has_unsupported(inner) || has_unsupported(rest)) by {
                if has_unsupported(ts) {
                    let i = choose|i: int| 0 <= i < ts.len() && (#[trigger] ts[i]) is BoldOrItalic;
                    assert(i != 0);
                    if i - 1 < j {
                        assert(inner[i - 1] == s1[i - 1]);
                        assert(s1[i - 1] == ts[i]);
                        assert(inner[i - 1] is BoldOrItalic);
                    } else if i - 1 == j {
                        assert(is_delim(s1[j], k));
                        assert(s1[j] == ts[i]);
                    } else {
                        assert(rest[i - j - 2] == s1[i - 1]);
                        assert(s1[i - 1] == ts[i]);
                        assert(rest[i - j - 2] is BoldOrItalic);
                    }
                }
            }
        }
        None => {
            lemma_parse_err_iff_unsupported(s1);
            assert(has_unsupported(s1) ==> has_unsupported(ts)) by {
                if has_unsupported(s1) {
                    let i = choose|i: int| 0 <= i < s1.len() && (#[trigger] s1[i]) is BoldOrItalic;
                    assert(ts[i + 1] == s1[i]);
                }
            }
            assert(has_unsupported(ts) ==> has_unsupported(s1)) by {
                if has_unsupported(ts) {
                    let i = choose|i: int| 0 <= i < ts.len() && (#[trigger] ts[i]) is BoldOrItalic;
                    assert(i != 0);
                    assert(s1[i - 1] == ts[i]);
                }
            }
        }
    }
}

/// Parses `tokens[start..end]`: one token of dispatch per step, and a
/// recursive parse of the sub-range that a matched delimiter pair bounds.
fn parse_range(tokens: &Vec<Token>, start: usize, end: usize) -> (r: Result<
    Vec<ASTNode>,
    ParseError,
>)
    requires
        start <= end <= tokens@.len(),
    ensures
        result_view(r) == spec_parse(view_tokens(tokens@.subrange(start as int, end as int))),
    decreases end - start,
{
    let ghost ts = view_tokens(tokens@.subrange(start as int, end as int));
    if start == end {
        let r: Result<Vec<ASTNode>, ParseError> = Ok(Vec::new());
        proof {
            assert(view_nodes(Seq::<ASTNode>::empty()) =~= Seq::<SpecAst>::empty());
        }
        return r;
    }
    proof {
        assert(ts[0] == tokens@[start as int]@);
        assert(ts.skip(1) =~= view_tokens(tokens@.subrange(start as int + 1, end as int)));
    }
    match delim_kind(&tokens[start]) {
        Some(k) => {
            proof {
                assert(is_delim(ts[0], k));
                assert(spec_parse(ts) == spec_parse_delim(k, ts));
            }
            match find_delim(tokens, k, start + 1, end) {
                Some(j) => {
                    let ghost jj: int = j as int - (start as int + 1);
                    proof {
                        assert(spec_find_delim(ts.skip(1), k) == Some(jj));
                        assert(ts.skip(1).take(jj) =~= view_tokens(
                            tokens@.subrange(start as int + 1, j as int),
                        ));
                        assert(ts.skip(1).skip(jj + 1) =~= view_tokens(
                            tokens@.subrange(j as int + 1, end as int),
                        ));
                    }
                    match parse_range(tokens, start + 1, j) {
                        Ok(children) => {
                            let ghost children_view_val = view_nodes(children@);
                            proof {
                                assert(spec_parse(ts.skip(1).take(jj)) == Ok::<Seq<SpecAst>, ParseError>(children_view_val));
                            }
                            let node = node_of_kind(k, children);
                            match parse_range(tokens, j + 1, end) {
                                Ok(mut rest) => {
                                    let ghost rest_view = view_nodes(rest@);
                                    proof {
                                        assert(spec_parse(ts.skip(1).skip(jj + 1)) == Ok::<Seq<SpecAst>, ParseError>(
                                            rest_view,
                                        ));
                                        assert(spec_parse(ts) == Ok::<Seq<SpecAst>, ParseError>(
                                            seq![make_node(k, children_view_val)] + rest_view,
                                        ));
                                    }
                                    rest.insert(0, node);
                                    proof {
                                        assert(view_nodes(rest@) =~= seq![node@] + rest_view);
                                    }
                                    Ok(rest)
                                }
                                Err(e) => {
                                    proof {
                                        assert(spec_parse(ts) == Err::<Seq<SpecAst>, ParseError>(
                                            e,
                                        ));
                                    }
                                    Err(e)
                                }
                            }
                        }
                        Err(e) => {
                            proof {
                                assert(spec_parse(ts) == Err::<Seq<SpecAst>, ParseError>(e));
                            }
                            Err(e)
                        }
                    }
                }
                None => {
                    match parse_range(tokens, start + 1, end) {
                        Ok(children) => {
                            let ghost children_view_val = view_nodes(children@);
                            proof {
                                assert(spec_parse(ts.skip(1)) == Ok::<Seq<SpecAst>, ParseError>(children_view_val));
                                assert(spec_parse(ts) == Ok::<Seq<SpecAst>, ParseError>(
                                    seq![make_node(k, children_view_val)],
                                ));
                            }
                            let node = node_of_kind(k, children);
                            let mut nodes: Vec<ASTNode> = Vec::new();
                            nodes.push(node);
                            proof {
                                assert(view_nodes(nodes@) =~= seq![node@]);
                            }
                            Ok(nodes)
                        }
                        Err(e) => {
                            proof {
                                assert(spec_parse(ts) == Err::<Seq<SpecAst>, ParseError>(e));
                            }
                            Err(e)
                        }
                    }
                }
            }
        }
        None => {
            match &tokens[start] {
                Token::Text(text) => {
                    let node = ASTNode::Text(text.clone());
                    proof {
                        assert(ts[0] == SpecToken::Text(text@));
                        assert(node@ == SpecAst::Text(text@));
                    }
                    match parse_range(tokens, start + 1, end) {
                        Ok(mut rest) => {
                            let ghost rest_view = view_nodes(rest@);
                            proof {
                                assert(spec_parse(ts.skip(1)) == Ok::<Seq<SpecAst>, ParseError>(rest_view));
                                assert(spec_parse(ts) == Ok::<Seq<SpecAst>, ParseError>(seq![SpecAst::Text(text@)] + rest_view));
                            }
                            rest.insert(0, node);
                            proof {
                                assert(view_nodes(rest@) =~= seq![node@] + rest_view);
                            }
                            Ok(rest)
                        }
                        Err(e) => {
                            proof {
                                assert(spec_parse(ts) == Err::<Seq<SpecAst>, ParseError>(e));
                            }
                            Err(e)
                        }
                    }
                }
                _ => {
                    proof {
                        assert(ts[0] is BoldOrItalic);
                        assert(spec_parse(ts) == Err::<Seq<SpecAst>, ParseError>(
                            ParseError::UnsupportedToken,
                        ));
                    }
                    Err(ParseError::UnsupportedToken)
                }
            }
        }
    }
}

/// Parses a whole token sequence into the forest of top-level nodes, or
/// returns the typed error when a bold-or-italic token reaches dispatch.
pub fn parser(tokens: &Vec<Token>) -> (r: Result<Vec<ASTNode>, ParseError>)
    ensures
        result_view(r) == spec_parse(view_tokens(tokens@)),
        r is Err <==> has_unsupported(view_tokens(tokens@)),
        r is Err ==> r == Err::<Vec<ASTNode>, ParseError>(ParseError::UnsupportedToken),
{
    let n: usize = tokens.len();
    let r = parse_range(tokens, 0, n);
    proof {
        assert(tokens@.subrange(0, tokens@.len() as int) =~= tokens@);
        lemma_parse_err_iff_unsupported(view_tokens(tokens@));
    }
    r
}

} // verus!
