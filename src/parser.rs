use vstd::prelude::*;

use crate::grammar::{
    insert_by_key, key_of, lemma_insert_pos, lemma_property_progress, lemma_value_progress,
    list_rest, object_rest, property_at, text_less, value_at, ErrorView, Outcome,
};
use crate::lemmas::{lemma_parsed_well_formed, well_formed};
use crate::node::{lemma_nodes_trees, nodes_trees, Node, Tree};
use crate::token::{Token, TokenType, TokenView};

verus! {

/// Why a token sequence could not be read as a tree.
#[derive(Debug)]
pub enum ParserError {
    /// A token of another kind was expected; the text says which.
    UnexpectedToken(String),
    /// The token cannot start a value.
    UnknownLiteral,
    /// An object holds two properties with this key.
    DuplicateKey(String),
}

impl View for ParserError {
    type V = ErrorView;

    open spec fn view(&self) -> ErrorView {
        match self {
            ParserError::UnexpectedToken(m) => ErrorView::UnexpectedToken(m@),
            ParserError::UnknownLiteral => ErrorView::UnknownLiteral,
            ParserError::DuplicateKey(k) => ErrorView::DuplicateKey(k@),
        }
    }
}

impl ErrorView {
    /// The human-readable text of the error.
    pub open spec fn message(self) -> Seq<char> {
        match self {
            ErrorView::UnexpectedToken(m) => m,
            ErrorView::UnknownLiteral => "Unknown literal"@,
            ErrorView::DuplicateKey(k) => "Duplicate property key "@ + k + " found"@,
        }
    }
}

impl ParserError {
    /// The human-readable text of the error.
    pub fn message(&self) -> (r: String)
        ensures
            r@ == self@.message(),
    {
        match self {
            ParserError::UnexpectedToken(m) => m.clone(),
            ParserError::UnknownLiteral => String::from_str("Unknown literal"),
            ParserError::DuplicateKey(k) => {
                let mut buf = String::from_str("Duplicate property key ");
                buf.append(k.as_str());
                buf.append(" found");
                buf
            },
        }
    }
}

/// `a` comes strictly before `b` in the order of [`text_less`].
fn key_before(a: &String, b: &String) -> (r: bool)
    ensures
        r == text_less(a@, b@),
{
    let sa = a.as_str();
    let sb = b.as_str();
    let la = sa.unicode_len();
    let lb = sb.unicode_len();
    let mut i: usize = 0;
    proof {
        assert(a@.skip(0) =~= a@);
        assert(b@.skip(0) =~= b@);
    }
    while i < la && i < lb
        invariant
            la == a@.len(),
            lb == b@.len(),
            sa@ == a@,
            sb@ == b@,
            i <= la,
            i <= lb,
            text_less(a@, b@) == text_less(a@.skip(i as int), b@.skip(i as int)),
        decreases la - i,
    {
        let ca = sa.get_char(i);
        let cb = sb.get_char(i);
        if ca != cb {
            return (ca as u32) < (cb as u32);
        }
        proof {
            assert(a@.skip(i as int).drop_first() =~= a@.skip(i + 1));
            assert(b@.skip(i as int).drop_first() =~= b@.skip(i + 1));
        }
        i = i + 1;
    }
    i == la && i < lb
}

/// The views of a sequence of tokens, one for one.
pub open spec fn token_views(ts: Seq<Token>) -> Seq<TokenView> {
    ts.map_values(|t: Token| t@)
}

/// `r` is what the outcome `o` says a parse returns.
pub open spec fn reports(o: Outcome, r: Result<Node, ParserError>) -> bool {
    match o {
        Outcome::Done(t, _) => r matches Ok(n) && n@ == t,
        Outcome::Failed(e) => r matches Err(err) && err@ == e,
        Outcome::Truncated => false,
    }
}

/// A recursive-descent parser over a sequence of tokens, reading from a
/// cursor.
pub struct Parser {
    current: usize,
    tokens: Vec<Token>,
}

impl Parser {
    /// The tokens the parser reads.
    pub closed spec fn tokens_view(&self) -> Seq<TokenView> {
        token_views(self.tokens@)
    }

    /// The position of the next token to read.
    pub closed spec fn position(&self) -> int {
        self.current as int
    }

    /// A parser that reads `tokens` from the first one.
    pub fn new(tokens: Vec<Token>) -> (r: Parser)
        ensures
            r.tokens_view() == token_views(tokens@),
            r.position() == 0,
    {
        Parser { current: 0, tokens }
    }

    /// Reads one value from the cursor on.
    ///
    /// The reading must stay within the tokens; it does whenever an
    /// end-of-input token follows the cursor (see
    /// [`crate::lemmas::lemma_end_token_bounds_reading`]).
    pub fn parse(&mut self) -> (r: Result<Node, ParserError>)
        requires
            !(value_at(old(self).tokens_view(), old(self).position()) is Truncated),
        ensures
            final(self).tokens_view() == old(self).tokens_view(),
            reports(value_at(old(self).tokens_view(), old(self).position()), r),
            value_at(old(self).tokens_view(), old(self).position()) matches Outcome::Done(_, e)
                ==> final(self).position() == e,
            r matches Ok(n) ==> well_formed(n@),
    {
        let r = self.parse_literal();
        proof {
            if let Outcome::Done(t, e) = value_at(old(self).tokens_view(), old(self).position()) {
                lemma_parsed_well_formed(old(self).tokens_view(), old(self).position(), t, e);
            }
        }
        r
    }

    /// Whether the token at the cursor is of kind `token_type`.
    fn match_token(&self, token_type: TokenType) -> (r: bool)
        requires
            self.current < self.tokens@.len(),
        ensures
            r == (self.tokens_view()[self.position()].kind == token_type),
    {
        self.tokens[self.current].token_type == token_type
    }

    /// The token at the cursor; the cursor moves past it.
    fn get_token_advance(&mut self) -> (r: Token)
        requires
            old(self).current < old(self).tokens@.len(),
        ensures
            final(self).tokens@ == old(self).tokens@,
            final(self).current == old(self).current + 1,
            r@ == old(self).tokens_view()[old(self).position()],
    {
        let n = self.tokens.len();
        let token = self.tokens[self.current].clone();
        self.current = self.current + 1;
        token
    }

    /// The token at the cursor if it is of kind `token_type`, moving past it;
    /// else the error `error`.
    fn get_or_error(&mut self, token_type: TokenType, error: &str) -> (r: Result<Token, ParserError>)
        requires
            old(self).current < old(self).tokens@.len(),
        ensures
            final(self).tokens@ == old(self).tokens@,
            old(self).tokens_view()[old(self).position()].kind == token_type ==> {
                &&& r matches Ok(t) && t@ == old(self).tokens_view()[old(self).position()]
                &&& final(self).current == old(self).current + 1
            },
            old(self).tokens_view()[old(self).position()].kind != token_type ==> (r matches Err(e)
                && e@ == ErrorView::UnexpectedToken(error@)),
    {
        if self.match_token(token_type) {
            return Ok(self.get_token_advance());
        }
        Err(ParserError::UnexpectedToken(String::from_str(error)))
    }
    fn parse_literal(&mut self) -> (r: Result<Node, ParserError>)
        requires
            !(value_at(old(self).tokens_view(), old(self).position()) is Truncated),
        ensures
            final(self).tokens@ == old(self).tokens@,
            reports(value_at(old(self).tokens_view(), old(self).position()), r),
            value_at(old(self).tokens_view(), old(self).position()) matches Outcome::Done(_, e)
                ==> final(self).position() == e,
        decreases old(self).tokens@.len() - old(self).current, 1int,
    {
        match self.tokens[self.current].token_type {
            TokenType::String | TokenType::Number | TokenType::True | TokenType::False
            | TokenType::Null => Ok(Node::Primary(self.get_token_advance().literal)),
            TokenType::LeftBracket => self.parse_list(),
            TokenType::LeftBrace => self.parse_object(),
            _ => Err(ParserError::UnknownLiteral),
        }
    }

    fn parse_list(&mut self) -> (r: Result<Node, ParserError>)
        requires
            old(self).current < old(self).tokens@.len(),
            old(self).tokens_view()[old(self).position()].kind == TokenType::LeftBracket,
            !(value_at(old(self).tokens_view(), old(self).position()) is Truncated),
        ensures
            final(self).tokens@ == old(self).tokens@,
            reports(value_at(old(self).tokens_view(), old(self).position()), r),
            value_at(old(self).tokens_view(), old(self).position()) matches Outcome::Done(_, e)
                ==> final(self).position() == e,
        decreases old(self).tokens@.len() - old(self).current, 0int,
    {
        let ghost toks = self.tokens_view();
        let ghost start = self.position();
        let open = self.get_token_advance();
        if self.match_token(TokenType::RightBracket) {
            let close = self.get_token_advance();
            let r = Ok(Node::List(open, Vec::new(), close));
            proof {
                assert(nodes_trees(Seq::<Node>::empty()) =~= Seq::<Tree>::empty());
            }
            return r;
        }
        let mut nodes: Vec<Node> = Vec::new();
        proof {
            assert(nodes_trees(nodes@) =~= Seq::<Tree>::empty());
        }
        loop
            invariant
                self.tokens@ == old(self).tokens@,
                toks == self.tokens_view(),
                toks == old(self).tokens_view(),
                start == old(self).position(),
                start < self.current,
                list_rest(toks, self.position(), open@, nodes_trees(nodes@)) == value_at(toks, start),
                !(value_at(toks, start) is Truncated),
            decreases self.tokens@.len() - self.current,
        {
            let ghost cur = self.position();
            let ghost acc = nodes_trees(nodes@);
            proof {
                assert(cur < toks.len());
                assert(!(value_at(toks, cur) is Truncated));
            }
            let value = match self.parse_literal() {
                Ok(v) => v,
                Err(e) => {
                    proof {
                        assert(list_rest(toks, cur, open@, acc) == value_at(toks, cur));
                    }
                    return Err(e);
                },
            };
            proof {
                lemma_value_progress(toks, cur);
            }
            let ghost before = nodes@;
            nodes.push(value);
            proof {
                assert(nodes@.subrange(0, nodes@.len() - 1) =~= before);
                assert(nodes_trees(nodes@) == acc.push(value@));
            }
            if self.match_token(TokenType::Comma) {
                self.get_token_advance();
            } else if self.match_token(TokenType::RightBracket) {
                let close = self.get_token_advance();
                return Ok(Node::List(open, nodes, close));
            } else {
                return Err(ParserError::UnexpectedToken(String::from_str("Expected ]")));
            }
        }
    }

    fn parse_property(&mut self) -> (r: Result<Node, ParserError>)
        requires
            !(property_at(old(self).tokens_view(), old(self).position()) is Truncated),
        ensures
            final(self).tokens@ == old(self).tokens@,
            reports(property_at(old(self).tokens_view(), old(self).position()), r),
            property_at(old(self).tokens_view(), old(self).position()) matches Outcome::Done(_, e)
                ==> final(self).position() == e,
        decreases old(self).tokens@.len() - old(self).current, 0int,
    {
        let key = match self.get_or_error(TokenType::Identifier, "Expected identifier") {
            Ok(t) => t,
            Err(e) => return Err(e),
        };
        let colon = match self.get_or_error(TokenType::Colon, "Expected colon") {
            Ok(t) => t,
            Err(e) => return Err(e),
        };
        let value = match self.parse_literal() {
            Ok(v) => v,
            Err(e) => return Err(e),
        };
        Ok(Node::Property(key, colon, Box::new(value)))
    }
    fn parse_object(&mut self) -> (r: Result<Node, ParserError>)
        requires
            old(self).current < old(self).tokens@.len(),
            old(self).tokens_view()[old(self).position()].kind == TokenType::LeftBrace,
            !(value_at(old(self).tokens_view(), old(self).position()) is Truncated),
        ensures
            final(self).tokens@ == old(self).tokens@,
            reports(value_at(old(self).tokens_view(), old(self).position()), r),
            value_at(old(self).tokens_view(), old(self).position()) matches Outcome::Done(_, e)
                ==> final(self).position() == e,
        decreases old(self).tokens@.len() - old(self).current, 0int,
    {
        let ghost toks = self.tokens_view();
        let ghost start = self.position();
        let open = self.get_token_advance();
        if self.match_token(TokenType::RightBrace) {
            let close = self.get_token_advance();
            let r = Ok(Node::Object(open, Vec::new(), close));
            proof {
                assert(nodes_trees(Seq::<Node>::empty()) =~= Seq::<Tree>::empty());
            }
            return r;
        }
        let mut properties: Vec<Node> = Vec::new();
        let mut keys: Vec<String> = Vec::new();
        proof {
            assert(nodes_trees(properties@) =~= Seq::<Tree>::empty());
        }
        loop
            invariant
                self.tokens@ == old(self).tokens@,
                toks == self.tokens_view(),
                toks == old(self).tokens_view(),
                start == old(self).position(),
                start < self.current,
                object_rest(toks, self.position(), open@, nodes_trees(properties@)) == value_at(
                    toks,
                    start,
                ),
                !(value_at(toks, start) is Truncated),
                keys@.len() == properties@.len(),
                forall|j: int|
                    0 <= j < keys@.len() ==> #[trigger] keys@[j]@ == key_of(
                        nodes_trees(properties@)[j],
                    ),
            decreases self.tokens@.len() - self.current,
        {
            let ghost cur = self.position();
            let ghost acc = nodes_trees(properties@);
            proof {
                lemma_nodes_trees(properties@);
            }
            let key = self.tokens[self.current].literal.to_string();
            let property = match self.parse_property() {
                Ok(p) => p,
                Err(e) => return Err(e),
            };
            proof {
                lemma_property_progress(toks, cur);
                assert(key@ == key_of(property@));
            }
            if contains_key(&keys, &key) {
                proof {
                    let j = choose|j: int| 0 <= j < keys@.len() && keys@[j]@ == key@;
                    assert(key_of(acc[j]) == key@);
                }
                return Err(ParserError::DuplicateKey(key));
            }
            let pos = lower_bound(&keys, &key);
            proof {
                assert forall|j: int| 0 <= j < acc.len() implies !(key_of(#[trigger] acc[j])
                    == key@) by {
                    assert(keys@[j]@ == key_of(acc[j]));
                }
                assert forall|j: int| 0 <= j < pos implies text_less(
                    key_of(#[trigger] acc[j]),
                    key@,
                ) by {
                    assert(keys@[j]@ == key_of(acc[j]));
                }
                if pos < acc.len() {
                    assert(keys@[pos as int]@ == key_of(acc[pos as int]));
                }
                lemma_insert_pos(acc, key@, pos as int);
            }
            let ghost before = properties@;
            let ghost before_keys = keys@;
            properties.insert(pos, property);
            keys.insert(pos, key);
            proof {
                lemma_nodes_trees(properties@);
                assert(nodes_trees(properties@) =~= insert_by_key(acc, property@));
                assert forall|j: int| 0 <= j < keys@.len() implies #[trigger] keys@[j]@ == key_of(
                    nodes_trees(properties@)[j],
                ) by {
                    if j < pos {
                        assert(keys@[j] == before_keys[j]);
                    } else if j > pos {
                        assert(keys@[j] == before_keys[j - 1]);
                    }
                }
            }
            if self.match_token(TokenType::Comma) {
                self.get_token_advance();
            } else if self.match_token(TokenType::RightBrace) {
                let close = self.get_token_advance();
                return Ok(Node::Object(open, properties, close));
            } else {
                return Err(ParserError::UnexpectedToken(String::from_str("Expected }")));
            }
        }
    }
}

/// Whether some key of `keys` equals `key`.
fn contains_key(keys: &Vec<String>, key: &String) -> (r: bool)
    ensures
        r == exists|j: int| 0 <= j < keys@.len() && keys@[j]@ == key@,
{
    let mut i: usize = 0;
    while i < keys.len()
        invariant
            i <= keys@.len(),
            forall|j: int| 0 <= j < i ==> keys@[j]@ != key@,
        decreases keys.len() - i,
    {
        if keys[i] == *key {
            return true;
        }
        i = i + 1;
    }
    false
}

/// The first index of `keys` whose key does not come before `key`, or the
/// length where there is none.
fn lower_bound(keys: &Vec<String>, key: &String) -> (r: usize)
    ensures
        r <= keys@.len(),
        forall|j: int| 0 <= j < r ==> text_less(#[trigger] keys@[j]@, key@),
        r < keys@.len() ==> !text_less(keys@[r as int]@, key@),
{
    let mut i: usize = 0;
    while i < keys.len()
        invariant
            i <= keys@.len(),
            forall|j: int| 0 <= j < i ==> text_less(#[trigger] keys@[j]@, key@),
        decreases keys.len() - i,
    {
        if !key_before(&keys[i], key) {
            return i;
        }
        i = i + 1;
    }
    i
}

} // verus!
