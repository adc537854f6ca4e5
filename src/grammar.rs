//! The grammar, as a mathematical function from tokens to a tree.
use vstd::prelude::*;

use crate::node::Tree;
use crate::token::{TokenType, TokenView};

verus! {

/// The mathematical value of a [`crate::parser::ParserError`].
pub enum ErrorView {
    UnexpectedToken(Seq<char>),
    UnknownLiteral,
    DuplicateKey(Seq<char>),
}

/// What reading the tokens from some position comes to.
pub enum Outcome {
    /// A tree, and the position of the first token after it.
    Done(Tree, int),
    /// The first error met.
    Failed(ErrorView),
    /// The reading went past the last token.
    Truncated,
}

/// Whether a token of this kind is a whole value by itself.
pub open spec fn is_scalar(kind: TokenType) -> bool {
    match kind {
        TokenType::String | TokenType::Number | TokenType::True | TokenType::False
        | TokenType::Null => true,
        _ => false,
    }
}

/// `a` comes strictly before `b`, comparing character by character, a
/// proper prefix first.
pub open spec fn text_less(a: Seq<char>, b: Seq<char>) -> bool
    decreases a.len(),
{
    if a.len() == 0 {
        b.len() > 0
    } else if b.len() == 0 {
        false
    } else if a[0] != b[0] {
        (a[0] as int) < (b[0] as int)
    } else {
        text_less(a.drop_first(), b.drop_first())
    }
}

/// The key text of a property.
pub open spec fn key_of(t: Tree) -> Seq<char> {
    match t {
        Tree::Property(key, _, _) => key.literal.text(),
        _ => Seq::empty(),
    }
}

/// Some property of `ps` has key `k`.
pub open spec fn has_key(ps: Seq<Tree>, k: Seq<char>) -> bool {
    exists|j: int| 0 <= j < ps.len() && key_of(#[trigger] ps[j]) == k
}

/// The number of leading properties of `ps` whose key comes before `k`.
pub open spec fn insert_pos(ps: Seq<Tree>, k: Seq<char>) -> int
    decreases ps.len(),
{
    if ps.len() == 0 {
        0
    } else if text_less(key_of(ps[0]), k) {
        1 + insert_pos(ps.drop_first(), k)
    } else {
        0
    }
}

/// `ps` with `p` put in before the first property whose key does not come
/// before the key of `p`.
pub open spec fn insert_by_key(ps: Seq<Tree>, p: Tree) -> Seq<Tree> {
    ps.insert(insert_pos(ps, key_of(p)), p)
}

/// Reads one value starting at position `p`.
pub open spec fn value_at(toks: Seq<TokenView>, p: int) -> Outcome
    decreases toks.len() - p, 1int,
{
    if p < 0 || p >= toks.len() {
        Outcome::Truncated
    } else if is_scalar(toks[p].kind) {
        Outcome::Done(Tree::Primary(toks[p].literal), p + 1)
    } else if toks[p].kind == TokenType::LeftBracket {
        if p + 1 >= toks.len() {
            Outcome::Truncated
        } else if toks[p + 1].kind == TokenType::RightBracket {
            Outcome::Done(Tree::List(toks[p], Seq::empty(), toks[p + 1]), p + 2)
        } else {
            list_rest(toks, p + 1, toks[p], Seq::empty())
        }
    } else if toks[p].kind == TokenType::LeftBrace {
        if p + 1 >= toks.len() {
            Outcome::Truncated
        } else if toks[p + 1].kind == TokenType::RightBrace {
            Outcome::Done(Tree::Object(toks[p], Seq::empty(), toks[p + 1]), p + 2)
        } else {
            object_rest(toks, p + 1, toks[p], Seq::empty())
        }
    } else {
        Outcome::Failed(ErrorView::UnknownLiteral)
    }
}

/// Reads the elements of a list from position `q` on, where an element
/// starts; `open` is the list's opening token and `acc` the elements read.
pub open spec fn list_rest(toks: Seq<TokenView>, q: int, open: TokenView, acc: Seq<Tree>) -> Outcome
    decreases toks.len() - q, 2int,
{
    if q < 0 || q >= toks.len() {
        Outcome::Truncated
    } else {
        match value_at(toks, q) {
            Outcome::Done(t, e) => {
                if e <= q || e >= toks.len() {
                    Outcome::Truncated
                } else if toks[e].kind == TokenType::Comma {
                    list_rest(toks, e + 1, open, acc.push(t))
                } else if toks[e].kind == TokenType::RightBracket {
                    Outcome::Done(Tree::List(open, acc.push(t), toks[e]), e + 1)
                } else {
                    Outcome::Failed(ErrorView::UnexpectedToken("Expected ]"@))
                }
            },
            other => other,
        }
    }
}

/// Reads one property, `key : value`, starting at position `q`.
pub open spec fn property_at(toks: Seq<TokenView>, q: int) -> Outcome
    decreases toks.len() - q, 1int,
{
    if q < 0 || q >= toks.len() {
        Outcome::Truncated
    } else if toks[q].kind != TokenType::Identifier {
        Outcome::Failed(ErrorView::UnexpectedToken("Expected identifier"@))
    } else if q + 1 >= toks.len() {
        Outcome::Truncated
    } else if toks[q + 1].kind != TokenType::Colon {
        Outcome::Failed(ErrorView::UnexpectedToken("Expected colon"@))
    } else {
        match value_at(toks, q + 2) {
            Outcome::Done(v, e) => Outcome::Done(Tree::Property(toks[q], toks[q + 1], Box::new(v)), e),
            other => other,
        }
    }
}

/// Reads the properties of an object from position `q` on, where a property
/// starts; `open` is the object's opening token and `acc` the properties read,
/// ordered by key.
pub open spec fn object_rest(
    toks: Seq<TokenView>,
    q: int,
    open: TokenView,
    acc: Seq<Tree>,
) -> Outcome
    decreases toks.len() - q, 2int,
{
    if q < 0 || q >= toks.len() {
        Outcome::Truncated
    } else {
        match property_at(toks, q) {
            Outcome::Done(t, e) => {
                if has_key(acc, key_of(t)) {
                    Outcome::Failed(ErrorView::DuplicateKey(key_of(t)))
                } else if e <= q || e >= toks.len() {
                    Outcome::Truncated
                } else if toks[e].kind == TokenType::Comma {
                    object_rest(toks, e + 1, open, insert_by_key(acc, t))
                } else if toks[e].kind == TokenType::RightBrace {
                    Outcome::Done(Tree::Object(open, insert_by_key(acc, t), toks[e]), e + 1)
                } else {
                    Outcome::Failed(ErrorView::UnexpectedToken("Expected }"@))
                }
            },
            other => other,
        }
    }
}

/// A value read from `p` ends after `p`, and no later than the last token.
pub proof fn lemma_value_progress(toks: Seq<TokenView>, p: int)
    ensures
        value_at(toks, p) matches Outcome::Done(_, e) ==> p < e <= toks.len(),
    decreases toks.len() - p, 1int,
{
    if 0 <= p < toks.len() && !is_scalar(toks[p].kind) && p + 1 < toks.len() {
        if toks[p].kind == TokenType::LeftBracket && toks[p + 1].kind != TokenType::RightBracket {
            lemma_list_progress(toks, p + 1, toks[p], Seq::empty());
        } else if toks[p].kind == TokenType::LeftBrace && toks[p + 1].kind != TokenType::RightBrace {
            lemma_object_progress(toks, p + 1, toks[p], Seq::empty());
        }
    }
}

proof fn lemma_list_progress(toks: Seq<TokenView>, q: int, open: TokenView, acc: Seq<Tree>)
    ensures
        list_rest(toks, q, open, acc) matches Outcome::Done(_, e) ==> q < e <= toks.len(),
    decreases toks.len() - q, 2int,
{
    if 0 <= q < toks.len() {
        lemma_value_progress(toks, q);
        if let Outcome::Done(t, e) = value_at(toks, q) {
            if q < e < toks.len() && toks[e].kind == TokenType::Comma {
                lemma_list_progress(toks, e + 1, open, acc.push(t));
            }
        }
    }
}

pub proof fn lemma_property_progress(toks: Seq<TokenView>, q: int)
    ensures
        property_at(toks, q) matches Outcome::Done(_, e) ==> q < e <= toks.len(),
    decreases toks.len() - q, 1int,
{
    if 0 <= q && q + 1 < toks.len() {
        lemma_value_progress(toks, q + 2);
    }
}

proof fn lemma_object_progress(toks: Seq<TokenView>, q: int, open: TokenView, acc: Seq<Tree>)
    ensures
        object_rest(toks, q, open, acc) matches Outcome::Done(_, e) ==> q < e <= toks.len(),
    decreases toks.len() - q, 2int,
{
    if 0 <= q < toks.len() {
        lemma_property_progress(toks, q);
        if let Outcome::Done(t, e) = property_at(toks, q) {
            if q < e < toks.len() && toks[e].kind == TokenType::Comma {
                lemma_object_progress(toks, e + 1, open, insert_by_key(acc, t));
            }
        }
    }
}

/// Where a scan stops at the first key that does not come before `k`, it
/// stops at [`insert_pos`].
pub proof fn lemma_insert_pos(ps: Seq<Tree>, k: Seq<char>, i: int)
    requires
        0 <= i <= ps.len(),
        forall|j: int| 0 <= j < i ==> text_less(key_of(#[trigger] ps[j]), k),
        i < ps.len() ==> !text_less(key_of(ps[i]), k),
    ensures
        insert_pos(ps, k) == i,
    decreases i,
{
    if i > 0 {
        let rest = ps.drop_first();
        assert forall|j: int| 0 <= j < i - 1 implies text_less(key_of(#[trigger] rest[j]), k) by {
            assert(rest[j] == ps[j + 1]);
        }
        if i - 1 < rest.len() {
            assert(rest[i - 1] == ps[i]);
        }
        lemma_insert_pos(rest, k, i - 1);
        assert(text_less(key_of(ps[0]), k));
    }
}

} // verus!
