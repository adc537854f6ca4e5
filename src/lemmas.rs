//! Facts about the grammar and the printers.
use vstd::prelude::*;

use crate::grammar::{
    has_key, insert_by_key, insert_pos, is_scalar, key_of, lemma_property_progress,
    lemma_value_progress, list_rest, object_rest, property_at, text_less, value_at, ErrorView,
    Outcome,
};
use crate::node::Tree;
use crate::printer::{compact, compact_all};
use crate::token::{TokenType, TokenView};

verus! {

/// Reading a value from any position at or before an end-of-input token
/// stays within the tokens, and the value ends no later than that token.
pub proof fn lemma_end_token_bounds_reading(toks: Seq<TokenView>, p: int, i: int)
    requires
        0 <= p <= i < toks.len(),
        toks[i].kind == TokenType::Eof,
    ensures
        !(value_at(toks, p) is Truncated),
        value_at(toks, p) matches Outcome::Done(_, e) ==> e <= i,
    decreases toks.len() - p, 1int,
{
    if p < i && p + 1 <= i {
        if toks[p].kind == TokenType::LeftBracket && toks[p + 1].kind != TokenType::RightBracket {
            lemma_end_token_bounds_list(toks, p + 1, toks[p], Seq::empty(), i);
        } else if toks[p].kind == TokenType::LeftBrace && toks[p + 1].kind
            != TokenType::RightBrace {
            lemma_end_token_bounds_object(toks, p + 1, toks[p], Seq::empty(), i);
        }
    }
}

proof fn lemma_end_token_bounds_list(
    toks: Seq<TokenView>,
    q: int,
    open: TokenView,
    acc: Seq<Tree>,
    i: int,
)
    requires
        0 <= q <= i < toks.len(),
        toks[i].kind == TokenType::Eof,
    ensures
        !(list_rest(toks, q, open, acc) is Truncated),
        list_rest(toks, q, open, acc) matches Outcome::Done(_, e) ==> e <= i,
    decreases toks.len() - q, 2int,
{
    lemma_end_token_bounds_reading(toks, q, i);
    lemma_value_progress(toks, q);
    if let Outcome::Done(t, e) = value_at(toks, q) {
        if toks[e].kind == TokenType::Comma {
            lemma_end_token_bounds_list(toks, e + 1, open, acc.push(t), i);
        }
    }
}

proof fn lemma_end_token_bounds_property(toks: Seq<TokenView>, q: int, i: int)
    requires
        0 <= q <= i < toks.len(),
        toks[i].kind == TokenType::Eof,
    ensures
        !(property_at(toks, q) is Truncated),
        property_at(toks, q) matches Outcome::Done(_, e) ==> e <= i,
    decreases toks.len() - q, 1int,
{
    if toks[q].kind == TokenType::Identifier && toks[q + 1].kind == TokenType::Colon {
        lemma_end_token_bounds_reading(toks, q + 2, i);
    }
}

proof fn lemma_end_token_bounds_object(
    toks: Seq<TokenView>,
    q: int,
    open: TokenView,
    acc: Seq<Tree>,
    i: int,
)
    requires
        0 <= q <= i < toks.len(),
        toks[i].kind == TokenType::Eof,
    ensures
        !(object_rest(toks, q, open, acc) is Truncated),
        object_rest(toks, q, open, acc) matches Outcome::Done(_, e) ==> e <= i,
    decreases toks.len() - q, 2int,
{
    lemma_end_token_bounds_property(toks, q, i);
    lemma_property_progress(toks, q);
    if let Outcome::Done(t, e) = property_at(toks, q) {
        if toks[e].kind == TokenType::Comma {
            lemma_end_token_bounds_object(toks, e + 1, open, insert_by_key(acc, t), i);
        }
    }
}

/// How a token shows in a compact rendering: a value token as its value,
/// with a string quoted, and any other token as its text.
pub open spec fn rendered(tok: TokenView) -> Seq<char> {
    if is_scalar(tok.kind) {
        tok.literal.quoted_text()
    } else {
        tok.literal.text()
    }
}

/// The renderings of `ts`, one after the other.
pub open spec fn tokens_text(ts: Seq<TokenView>) -> Seq<char>
    decreases ts.len(),
{
    if ts.len() == 0 {
        Seq::empty()
    } else {
        tokens_text(ts.drop_last()) + rendered(ts.last())
    }
}

/// Every object and every list in `t` has at most one child.
pub open spec fn at_most_one_child(t: Tree) -> bool
    decreases t,
{
    match t {
        Tree::Primary(_) => true,
        Tree::Object(_, ps, _) => ps.len() <= 1 && (ps.len() == 1 ==> at_most_one_child(ps[0])),
        Tree::Property(_, _, v) => at_most_one_child(*v),
        Tree::List(_, es, _) => es.len() <= 1 && (es.len() == 1 ==> at_most_one_child(es[0])),
    }
}

proof fn lemma_tokens_text_split(ts: Seq<TokenView>, a: int, b: int, c: int)
    requires
        0 <= a <= b <= c <= ts.len(),
    ensures
        tokens_text(ts.subrange(a, c)) == tokens_text(ts.subrange(a, b)) + tokens_text(
            ts.subrange(b, c),
        ),
    decreases c - b,
{
    if b == c {
        assert(ts.subrange(b, c) =~= Seq::<TokenView>::empty());
        assert(tokens_text(ts.subrange(a, b)) + Seq::<char>::empty() =~= tokens_text(
            ts.subrange(a, b),
        ));
    } else {
        lemma_tokens_text_split(ts, a, b, c - 1);
        assert(ts.subrange(a, c).drop_last() =~= ts.subrange(a, c - 1));
        assert(ts.subrange(b, c).drop_last() =~= ts.subrange(b, c - 1));
        assert(tokens_text(ts.subrange(a, c)) =~= tokens_text(ts.subrange(a, b)) + tokens_text(
            ts.subrange(b, c),
        ));
    }
}

proof fn lemma_tokens_text_one(ts: Seq<TokenView>, a: int)
    requires
        0 <= a < ts.len(),
    ensures
        tokens_text(ts.subrange(a, a + 1)) == rendered(ts[a]),
{
    let s = ts.subrange(a, a + 1);
    assert(s.drop_last() =~= Seq::<TokenView>::empty());
    assert(s.last() == ts[a]);
    assert(tokens_text(s.drop_last()) == Seq::<char>::empty());
    assert(tokens_text(s) =~= rendered(ts[a]));
}

proof fn lemma_list_rest_grows(toks: Seq<TokenView>, q: int, open: TokenView, acc: Seq<Tree>)
    ensures
        list_rest(toks, q, open, acc) matches Outcome::Done(t, _) ==> (t matches Tree::List(
            _,
            es,
            _,
        ) && es.len() > acc.len()),
    decreases toks.len() - q,
{
    if 0 <= q < toks.len() {
        if let Outcome::Done(t, e) = value_at(toks, q) {
            if q < e < toks.len() && toks[e].kind == TokenType::Comma {
                lemma_list_rest_grows(toks, e + 1, open, acc.push(t));
            }
        }
    }
}

proof fn lemma_insert_pos_bounds(ps: Seq<Tree>, k: Seq<char>)
    ensures
        0 <= insert_pos(ps, k) <= ps.len(),
    decreases ps.len(),
{
    if ps.len() > 0 {
        lemma_insert_pos_bounds(ps.drop_first(), k);
    }
}

proof fn lemma_object_rest_grows(toks: Seq<TokenView>, q: int, open: TokenView, acc: Seq<Tree>)
    ensures
        object_rest(toks, q, open, acc) matches Outcome::Done(t, _) ==> (t matches Tree::Object(
            _,
            ps,
            _,
        ) && ps.len() > acc.len()),
    decreases toks.len() - q,
{
    if 0 <= q < toks.len() {
        if let Outcome::Done(t, e) = property_at(toks, q) {
            lemma_insert_pos_bounds(acc, key_of(t));
            if !has_key(acc, key_of(t)) && q < e < toks.len() && toks[e].kind == TokenType::Comma {
                lemma_object_rest_grows(toks, e + 1, open, insert_by_key(acc, t));
            }
        }
    }
}

/// A value in which no object or list holds more than one child prints
/// compactly as the text of the tokens it was read from, with value tokens
/// shown as values.
pub proof fn lemma_compact_round_trip(toks: Seq<TokenView>, p: int, t: Tree, e: int)
    requires
        value_at(toks, p) == Outcome::Done(t, e),
        at_most_one_child(t),
    ensures
        compact(t) == tokens_text(toks.subrange(p, e)),
    decreases toks.len() - p,
{
    lemma_tokens_text_one(toks, p);
    if is_scalar(toks[p].kind) {
    } else if (toks[p].kind == TokenType::LeftBracket && toks[p + 1].kind
        == TokenType::RightBracket) || (toks[p].kind == TokenType::LeftBrace && toks[p + 1].kind
        == TokenType::RightBrace) {
        lemma_tokens_text_one(toks, p + 1);
        lemma_tokens_text_split(toks, p, p + 1, p + 2);
        assert(compact_all(Seq::<Tree>::empty()) == Seq::<char>::empty());
        assert(compact(t) =~= tokens_text(toks.subrange(p, e)));
    } else if toks[p].kind == TokenType::LeftBracket {
        let q = p + 1;
        lemma_value_progress(toks, q);
        let t1 = value_at(toks, q)->Done_0;
        let e1 = value_at(toks, q)->Done_1;
        if toks[e1].kind == TokenType::Comma {
            lemma_list_rest_grows(toks, e1 + 1, toks[p], seq![t1]);
            assert(false);
        }
        assert(t == Tree::List(toks[p], seq![t1], toks[e1]));
        lemma_compact_round_trip(toks, q, t1, e1);
        lemma_tokens_text_one(toks, e1);
        lemma_tokens_text_split(toks, p, q, e1);
        lemma_tokens_text_split(toks, p, e1, e1 + 1);
        assert(seq![t1].subrange(0, 0) =~= Seq::<Tree>::empty());
        assert(compact_all(Seq::<Tree>::empty()) == Seq::<char>::empty());
        assert(seq![t1][0] == t1);
        assert(compact_all(seq![t1]) =~= compact(t1));
    } else {
        let q = p + 1;
        lemma_property_progress(toks, q);
        let t1 = property_at(toks, q)->Done_0;
        let e1 = property_at(toks, q)->Done_1;
        let one = insert_by_key(Seq::empty(), t1);
        assert(one =~= seq![t1]);
        if toks[e1].kind == TokenType::Comma {
            lemma_object_rest_grows(toks, e1 + 1, toks[p], one);
            assert(false);
        }
        assert(t == Tree::Object(toks[p], one, toks[e1]));
        let v = value_at(toks, q + 2)->Done_0;
        assert(one[0] == t1);
        assert(at_most_one_child(t1));
        lemma_compact_round_trip(toks, q + 2, v, e1);
        lemma_tokens_text_one(toks, q);
        lemma_tokens_text_one(toks, q + 1);
        lemma_tokens_text_one(toks, e1);
        lemma_tokens_text_split(toks, p, q, q + 1);
        lemma_tokens_text_split(toks, p, q + 1, q + 2);
        lemma_tokens_text_split(toks, p, q + 2, e1);
        lemma_tokens_text_split(toks, p, e1, e1 + 1);
        assert(one.subrange(0, 0) =~= Seq::<Tree>::empty());
        assert(compact_all(Seq::<Tree>::empty()) == Seq::<char>::empty());
        assert(compact_all(one) =~= compact(t1));
    }
}

/// No text comes before itself.
pub proof fn lemma_text_less_irreflexive(a: Seq<char>)
    ensures
        !text_less(a, a),
    decreases a.len(),
{
    if a.len() > 0 {
        lemma_text_less_irreflexive(a.drop_first());
    }
}

/// The order of texts is transitive.
pub proof fn lemma_text_less_transitive(a: Seq<char>, b: Seq<char>, c: Seq<char>)
    requires
        text_less(a, b),
        text_less(b, c),
    ensures
        text_less(a, c),
    decreases a.len(),
{
    if a.len() > 0 && b.len() > 0 && c.len() > 0 && a[0] == b[0] && b[0] == c[0] {
        lemma_text_less_transitive(a.drop_first(), b.drop_first(), c.drop_first());
    }
}

/// Of two different texts, one comes before the other.
pub proof fn lemma_text_less_total(a: Seq<char>, b: Seq<char>)
    requires
        a != b,
    ensures
        text_less(a, b) || text_less(b, a),
    decreases a.len(),
{
    if a.len() > 0 && b.len() > 0 {
        if a[0] == b[0] {
            if a.drop_first() == b.drop_first() {
                assert(a =~= seq![a[0]] + a.drop_first());
                assert(b =~= seq![b[0]] + b.drop_first());
            }
            lemma_text_less_total(a.drop_first(), b.drop_first());
        }
    } else if a.len() == 0 && b.len() == 0 {
        assert(a =~= b);
    }
}

/// The keys of `ps` strictly increase.
pub open spec fn keys_increasing(ps: Seq<Tree>) -> bool {
    forall|i: int, j: int|
        0 <= i < j < ps.len() ==> text_less(key_of(#[trigger] ps[i]), key_of(#[trigger] ps[j]))
}

/// `t` has the shape that reading gives: an object is delimited by braces
/// and holds only properties, in strictly increasing key order, so that no two
/// of them share a key; a list is delimited by brackets and holds no property;
/// a property has an identifier key, a colon, and a value that is no property.
pub open spec fn well_formed(t: Tree) -> bool
    decreases t, 0int,
{
    match t {
        Tree::Primary(_) => true,
        Tree::Object(open, ps, close) => open.kind == TokenType::LeftBrace && close.kind
            == TokenType::RightBrace && keys_increasing(ps) && all_well_formed(ps, ps.len(), true),
        Tree::Property(key, colon, v) => key.kind == TokenType::Identifier && colon.kind
            == TokenType::Colon && !is_property(*v) && well_formed(*v),
        Tree::List(open, es, close) => open.kind == TokenType::LeftBracket && close.kind
            == TokenType::RightBracket && all_well_formed(es, es.len(), false),
    }
}

/// Whether `t` is a property.
pub open spec fn is_property(t: Tree) -> bool {
    t is Property
}

/// The first `n` trees of `ts` are well formed, and are properties exactly
/// when `properties` holds.
pub open spec fn all_well_formed(ts: Seq<Tree>, n: nat, properties: bool) -> bool
    decreases ts, n,
{
    if n == 0 || n > ts.len() {
        true
    } else {
        all_well_formed(ts, (n - 1) as nat, properties) && well_formed(ts[n - 1]) && is_property(
            ts[n - 1],
        ) == properties
    }
}

/// A well-formed child, a property exactly when `properties` holds.
pub open spec fn child_ok(t: Tree, properties: bool) -> bool {
    well_formed(t) && is_property(t) == properties
}

proof fn lemma_all_well_formed(ts: Seq<Tree>, n: nat, properties: bool)
    requires
        n <= ts.len(),
    ensures
        all_well_formed(ts, n, properties) <==> forall|i: int|
            0 <= i < n ==> child_ok(#[trigger] ts[i], properties),
    decreases n,
{
    if n > 0 {
        lemma_all_well_formed(ts, (n - 1) as nat, properties);
    }
}

proof fn lemma_insert_pos_bound_keys(ps: Seq<Tree>, k: Seq<char>)
    ensures
        forall|j: int| 0 <= j < insert_pos(ps, k) ==> text_less(key_of(#[trigger] ps[j]), k),
        insert_pos(ps, k) < ps.len() ==> !text_less(key_of(ps[insert_pos(ps, k)]), k),
    decreases ps.len(),
{
    if ps.len() > 0 && text_less(key_of(ps[0]), k) {
        let rest = ps.drop_first();
        lemma_insert_pos_bound_keys(rest, k);
        lemma_insert_pos_bounds(rest, k);
        assert forall|j: int| 0 <= j < insert_pos(ps, k) implies text_less(
            key_of(#[trigger] ps[j]),
            k,
        ) by {
            if j > 0 {
                assert(ps[j] == rest[j - 1]);
            }
        }
        if insert_pos(ps, k) < ps.len() {
            assert(ps[insert_pos(ps, k)] == rest[insert_pos(rest, k)]);
        }
    }
}

proof fn lemma_insert_keeps_order(ps: Seq<Tree>, x: Tree)
    requires
        keys_increasing(ps),
        !has_key(ps, key_of(x)),
    ensures
        keys_increasing(insert_by_key(ps, x)),
        forall|j: int| 0 <= j < ps.len() ==> has_key(insert_by_key(ps, x), key_of(#[trigger] ps[j])),
        has_key(insert_by_key(ps, x), key_of(x)),
{
    let k = key_of(x);
    let i = insert_pos(ps, k);
    lemma_insert_pos_bounds(ps, k);
    lemma_insert_pos_bound_keys(ps, k);
    let r = insert_by_key(ps, x);
    assert(r.len() == ps.len() + 1);
    assert forall|j: int| 0 <= j < r.len() implies #[trigger] r[j] == (if j < i {
        ps[j]
    } else if j == i {
        x
    } else {
        ps[j - 1]
    }) by {}
    if i < ps.len() {
        assert(key_of(ps[i]) != k);
        lemma_text_less_total(key_of(ps[i]), k);
    }
    assert forall|j: int| i <= j < ps.len() implies text_less(k, key_of(#[trigger] ps[j])) by {
        if j > i {
            lemma_text_less_transitive(k, key_of(ps[i]), key_of(ps[j]));
        }
    }
    assert forall|a: int, b: int| 0 <= a < b < r.len() implies text_less(
        key_of(#[trigger] r[a]),
        key_of(#[trigger] r[b]),
    ) by {
        if a < i && b > i {
            lemma_text_less_transitive(key_of(ps[a]), k, key_of(ps[b - 1]));
        }
    }
    assert forall|j: int| 0 <= j < ps.len() implies has_key(r, key_of(#[trigger] ps[j])) by {
        if j < i {
            assert(r[j] == ps[j]);
        } else {
            assert(r[j + 1] == ps[j]);
        }
    }
    assert(r[i] == x);
}

/// Keys that strictly increase are all different.
pub proof fn lemma_increasing_keys_distinct(ps: Seq<Tree>)
    requires
        keys_increasing(ps),
    ensures
        forall|i: int, j: int|
            0 <= i < ps.len() && 0 <= j < ps.len() && i != j ==> key_of(#[trigger] ps[i])
                != key_of(#[trigger] ps[j]),
{
    assert forall|i: int, j: int|
        0 <= i < ps.len() && 0 <= j < ps.len() && i != j implies key_of(#[trigger] ps[i])
        != key_of(#[trigger] ps[j]) by {
        lemma_text_less_irreflexive(key_of(ps[i]));
    }
}

proof fn lemma_insert_keeps_children(ps: Seq<Tree>, x: Tree)
    requires
        forall|j: int| 0 <= j < ps.len() ==> child_ok(#[trigger] ps[j], true),
        child_ok(x, true),
    ensures
        forall|j: int|
            0 <= j < insert_by_key(ps, x).len() ==> child_ok(
                #[trigger] insert_by_key(ps, x)[j],
                true,
            ),
{
    let i = insert_pos(ps, key_of(x));
    lemma_insert_pos_bounds(ps, key_of(x));
    let r = insert_by_key(ps, x);
    assert forall|j: int| 0 <= j < r.len() implies child_ok(#[trigger] r[j], true) by {
        if j < i {
            assert(r[j] == ps[j]);
        } else if j > i {
            assert(r[j] == ps[j - 1]);
        }
    }
}

/// Every value that reads successfully is well formed, and is no property.
pub proof fn lemma_parsed_well_formed(toks: Seq<TokenView>, p: int, t: Tree, e: int)
    requires
        value_at(toks, p) == Outcome::Done(t, e),
    ensures
        well_formed(t),
        !is_property(t),
    decreases toks.len() - p, 1int,
{
    if is_scalar(toks[p].kind) {
    } else if (toks[p].kind == TokenType::LeftBracket && toks[p + 1].kind
        == TokenType::RightBracket) || (toks[p].kind == TokenType::LeftBrace && toks[p + 1].kind
        == TokenType::RightBrace) {
        lemma_all_well_formed(Seq::<Tree>::empty(), 0, true);
        lemma_all_well_formed(Seq::<Tree>::empty(), 0, false);
    } else if toks[p].kind == TokenType::LeftBracket {
        lemma_list_well_formed(toks, p + 1, toks[p], Seq::empty(), t, e);
    } else {
        lemma_object_well_formed(toks, p + 1, toks[p], Seq::empty(), t, e);
    }
}

proof fn lemma_list_well_formed(
    toks: Seq<TokenView>,
    q: int,
    open: TokenView,
    acc: Seq<Tree>,
    t: Tree,
    e: int,
)
    requires
        list_rest(toks, q, open, acc) == Outcome::Done(t, e),
        open.kind == TokenType::LeftBracket,
        forall|j: int| 0 <= j < acc.len() ==> child_ok(#[trigger] acc[j], false),
    ensures
        well_formed(t),
        t is List,
    decreases toks.len() - q, 2int,
{
    let t1 = value_at(toks, q)->Done_0;
    let e1 = value_at(toks, q)->Done_1;
    lemma_parsed_well_formed(toks, q, t1, e1);
    let acc1 = acc.push(t1);
    assert forall|j: int| 0 <= j < acc1.len() implies child_ok(#[trigger] acc1[j], false) by {
        if j < acc.len() {
            assert(acc1[j] == acc[j]);
        }
    }
    if toks[e1].kind == TokenType::Comma {
        lemma_list_well_formed(toks, e1 + 1, open, acc1, t, e);
    } else {
        lemma_all_well_formed(acc1, acc1.len(), false);
    }
}

proof fn lemma_property_well_formed(toks: Seq<TokenView>, q: int, t: Tree, e: int)
    requires
        property_at(toks, q) == Outcome::Done(t, e),
    ensures
        well_formed(t),
        is_property(t),
    decreases toks.len() - q, 1int,
{
    lemma_parsed_well_formed(toks, q + 2, value_at(toks, q + 2)->Done_0, e);
}

proof fn lemma_object_well_formed(
    toks: Seq<TokenView>,
    q: int,
    open: TokenView,
    acc: Seq<Tree>,
    t: Tree,
    e: int,
)
    requires
        object_rest(toks, q, open, acc) == Outcome::Done(t, e),
        open.kind == TokenType::LeftBrace,
        keys_increasing(acc),
        forall|j: int| 0 <= j < acc.len() ==> child_ok(#[trigger] acc[j], true),
    ensures
        well_formed(t),
        t is Object,
    decreases toks.len() - q, 2int,
{
    let t1 = property_at(toks, q)->Done_0;
    let e1 = property_at(toks, q)->Done_1;
    lemma_property_well_formed(toks, q, t1, e1);
    lemma_insert_keeps_order(acc, t1);
    lemma_insert_keeps_children(acc, t1);
    let acc1 = insert_by_key(acc, t1);
    if toks[e1].kind == TokenType::Comma {
        lemma_object_well_formed(toks, e1 + 1, open, acc1, t, e);
    } else {
        lemma_all_well_formed(acc1, acc1.len(), true);
    }
}

/// Within an object, a property whose key an earlier property of the same
/// object already has ends the reading with a duplicate-key error naming that
/// key, whatever the property's value and wherever the earlier one stands.
pub proof fn lemma_repeated_key_fails(
    toks: Seq<TokenView>,
    q: int,
    open: TokenView,
    acc: Seq<Tree>,
    t: Tree,
    e: int,
)
    requires
        property_at(toks, q) == Outcome::Done(t, e),
        has_key(acc, key_of(t)),
    ensures
        object_rest(toks, q, open, acc) == Outcome::Failed(ErrorView::DuplicateKey(key_of(t))),
{
}

/// A key read into an object stays among its keys as further properties are
/// read.
pub proof fn lemma_read_key_stays(ps: Seq<Tree>, x: Tree, k: Seq<char>)
    requires
        keys_increasing(ps),
        !has_key(ps, key_of(x)),
        has_key(ps, k),
    ensures
        has_key(insert_by_key(ps, x), k),
{
    lemma_insert_keeps_order(ps, x);
    let j = choose|j: int| 0 <= j < ps.len() && key_of(#[trigger] ps[j]) == k;
    assert(has_key(insert_by_key(ps, x), key_of(ps[j])));
}

} // verus!
