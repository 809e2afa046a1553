//! The tokens of a form, and why the reader is their inverse: a form that
//! is written out as tokens is read back as itself, and the tokens that a
//! form was read from are the tokens of that form.
use vstd::prelude::*;
use crate::lexer::token::TokenView;
use crate::parser::{
    lemma_read_form_advances, read_form, read_items, read_pairs, FormView, ParseErrorView,
};

verus! {

/// The tokens that a form is written with: a literal is one token, and a
/// call, a list or a map is its opening bracket, the tokens of what it
/// holds, and its closing bracket.
pub open spec fn tokens_of(form: FormView) -> Seq<TokenView>
    decreases form,
{
    match form {
        FormView::Call(items) => seq![TokenView::Open('(')] + tokens_of_items(items)
            + seq![TokenView::Close(')')],
        FormView::Symbol(symbol) => seq![TokenView::Symbol(symbol)],
        FormView::Float(text) => seq![TokenView::Float(text)],
        FormView::Integer(value) => seq![TokenView::Integer(value)],
        FormView::String(text) => seq![TokenView::String(text)],
        FormView::Char(c) => seq![TokenView::Char(c)],
        FormView::Keyword(name) => seq![TokenView::Keyword(name)],
        FormView::List(items) => seq![TokenView::Open('[')] + tokens_of_items(items)
            + seq![TokenView::Close(']')],
        FormView::Mapping(pairs) => seq![TokenView::Open('{')] + tokens_of_pairs(pairs)
            + seq![TokenView::Close('}')],
    }
}

/// The tokens of the forms of a call or a list, one form after the other.
pub open spec fn tokens_of_items(items: Seq<FormView>) -> Seq<TokenView>
    decreases items,
{
    if items.len() == 0 {
        Seq::empty()
    } else {
        tokens_of(items.first()) + tokens_of_items(items.drop_first())
    }
}

/// The tokens of the keys and values of a map, each key before its value.
pub open spec fn tokens_of_pairs(pairs: Seq<(FormView, FormView)>) -> Seq<TokenView>
    decreases pairs,
{
    if pairs.len() == 0 {
        Seq::empty()
    } else {
        tokens_of(pairs.first().0) + tokens_of(pairs.first().1) + tokens_of_pairs(
            pairs.drop_first(),
        )
    }
}

/// `part` stands in `tokens` at position `i`.
pub open spec fn stands_at(tokens: Seq<TokenView>, i: int, part: Seq<TokenView>) -> bool {
    &&& 0 <= i
    &&& i + part.len() <= tokens.len()
    &&& tokens.subrange(i, i + part.len()) == part
}

/// A form is written with at least one token, and the first is no closing
/// bracket.
pub proof fn lemma_tokens_of_begin(form: FormView)
    ensures
        tokens_of(form).len() > 0,
        !(tokens_of(form)[0] is Close),
{
}

/// What stands within a part that stands in `tokens` stands in `tokens`.
proof fn lemma_stands_within(
    tokens: Seq<TokenView>,
    i: int,
    part: Seq<TokenView>,
    offset: int,
    piece: Seq<TokenView>,
)
    requires
        stands_at(tokens, i, part),
        stands_at(part, offset, piece),
    ensures
        stands_at(tokens, i + offset, piece),
        forall|k: int| 0 <= k < part.len() ==> tokens[i + k] == #[trigger] part[k],
{
    let n = part.len() as int;
    let m = piece.len() as int;
    assert forall|k: int| 0 <= k < n implies tokens[i + k] == #[trigger] part[k] by {
        assert(tokens.subrange(i, i + n)[k] == tokens[i + k]);
    }
    assert(tokens.subrange(i + offset, i + offset + m) =~= piece) by {
        assert forall|k: int| 0 <= k < m implies tokens[i + offset + k] == piece[k] by {
            assert(part.subrange(offset, offset + m)[k] == part[offset + k]);
        }
    }
}

/// A form that is written out is read back as itself: where the tokens of
/// `form` stand at position `i`, whatever stands before and after them, the
/// reader reads `form` there and ends right after them.
pub proof fn lemma_written_form_is_read(tokens: Seq<TokenView>, i: int, form: FormView)
    requires
        stands_at(tokens, i, tokens_of(form)),
    ensures
        read_form(tokens, i) == Ok::<_, ParseErrorView>((form, i + tokens_of(form).len())),
    decreases form,
{
    let part = tokens_of(form);
    lemma_tokens_of_begin(form);
    lemma_stands_within(tokens, i, part, 0, part.subrange(0, 1));
    assert(tokens[i] == part[0]);
    match form {
        FormView::Call(items) => {
            let inner = tokens_of_items(items);
            let n = inner.len() as int;
            assert(part.subrange(1, 1 + n) =~= inner);
            lemma_stands_within(tokens, i, part, 1, inner);
            assert(part[1 + n] == TokenView::Close(')'));
            lemma_written_items_are_read(tokens, i + 1, items, ')');
        },
        FormView::List(items) => {
            let inner = tokens_of_items(items);
            let n = inner.len() as int;
            assert(part.subrange(1, 1 + n) =~= inner);
            lemma_stands_within(tokens, i, part, 1, inner);
            assert(part[1 + n] == TokenView::Close(']'));
            lemma_written_items_are_read(tokens, i + 1, items, ']');
        },
        FormView::Mapping(pairs) => {
            let inner = tokens_of_pairs(pairs);
            let n = inner.len() as int;
            assert(part.subrange(1, 1 + n) =~= inner);
            lemma_stands_within(tokens, i, part, 1, inner);
            assert(part[1 + n] == TokenView::Close('}'));
            lemma_written_pairs_are_read(tokens, i + 1, pairs);
        },
        _ => {},
    }
}

/// The forms of a call or a list that are written out before the bracket
/// `close` are read back as themselves.
pub proof fn lemma_written_items_are_read(
    tokens: Seq<TokenView>,
    i: int,
    items: Seq<FormView>,
    close: char,
)
    requires
        stands_at(tokens, i, tokens_of_items(items)),
        i + tokens_of_items(items).len() < tokens.len(),
        tokens[i + tokens_of_items(items).len()] == TokenView::Close(close),
    ensures
        read_items(tokens, i, close) == Ok::<_, ParseErrorView>(
            (items, i + tokens_of_items(items).len() + 1),
        ),
    decreases items,
{
    if items.len() == 0 {
        assert(items =~= Seq::<FormView>::empty());
    } else {
        let first = items.first();
        let rest = items.drop_first();
        let head = tokens_of(first);
        let tail = tokens_of_items(rest);
        let part = tokens_of_items(items);
        let h = head.len() as int;
        let t = tail.len() as int;
        lemma_tokens_of_begin(first);
        assert(part.subrange(0, h) =~= head);
        assert(part.subrange(h, h + t) =~= tail);
        lemma_stands_within(tokens, i, part, 0, head);
        lemma_stands_within(tokens, i, part, h, tail);
        assert(tokens[i] == part[0]);
        lemma_written_form_is_read(tokens, i, first);
        lemma_written_items_are_read(tokens, i + h, rest, close);
        assert(seq![first] + rest =~= items);
    }
}

/// The keys and values of a map that are written out before the bracket `}`
/// are read back as themselves.
pub proof fn lemma_written_pairs_are_read(
    tokens: Seq<TokenView>,
    i: int,
    pairs: Seq<(FormView, FormView)>,
)
    requires
        stands_at(tokens, i, tokens_of_pairs(pairs)),
        i + tokens_of_pairs(pairs).len() < tokens.len(),
        tokens[i + tokens_of_pairs(pairs).len()] == TokenView::Close('}'),
    ensures
        read_pairs(tokens, i) == Ok::<_, ParseErrorView>(
            (pairs, i + tokens_of_pairs(pairs).len() + 1),
        ),
    decreases pairs,
{
    if pairs.len() == 0 {
        assert(pairs =~= Seq::<(FormView, FormView)>::empty());
    } else {
        let first = pairs.first();
        let rest = pairs.drop_first();
        let key = tokens_of(first.0);
        let value = tokens_of(first.1);
        let tail = tokens_of_pairs(rest);
        let part = tokens_of_pairs(pairs);
        let k = key.len() as int;
        let v = value.len() as int;
        let t = tail.len() as int;
        lemma_tokens_of_begin(first.0);
        lemma_tokens_of_begin(first.1);
        assert(part.subrange(0, k) =~= key);
        assert(part.subrange(k, k + v) =~= value);
        assert(part.subrange(k + v, k + v + t) =~= tail);
        lemma_stands_within(tokens, i, part, 0, key);
        lemma_stands_within(tokens, i, part, k, value);
        lemma_stands_within(tokens, i, part, k + v, tail);
        assert(tokens[i] == part[0]);
        lemma_written_form_is_read(tokens, i, first.0);
        lemma_written_form_is_read(tokens, i + k, first.1);
        lemma_written_pairs_are_read(tokens, i + k + v, rest);
        assert(seq![first] + rest =~= pairs);
    }
}

/// Two parts that stand one after the other stand together.
proof fn lemma_stands_together(
    tokens: Seq<TokenView>,
    i: int,
    first: Seq<TokenView>,
    second: Seq<TokenView>,
)
    requires
        stands_at(tokens, i, first),
        stands_at(tokens, i + first.len(), second),
    ensures
        stands_at(tokens, i, first + second),
{
    let n = first.len() as int;
    let m = second.len() as int;
    assert(tokens.subrange(i, i + n + m) =~= first + second) by {
        assert forall|k: int| 0 <= k < n + m implies tokens[i + k] == (first + second)[k] by {
            if k < n {
                assert(tokens.subrange(i, i + n)[k] == tokens[i + k]);
            } else {
                assert(tokens.subrange(i + n, i + n + m)[k - n] == tokens[i + k]);
            }
        }
    }
}

/// The tokens that a form was read from are the tokens of that form: where
/// the reader reads `form` at position `i`, the tokens of `form` stand
/// there, and the reader ends right after them.
pub proof fn lemma_read_form_was_written(tokens: Seq<TokenView>, i: int)
    ensures
        read_form(tokens, i) matches Ok((form, end)) ==> stands_at(tokens, i, tokens_of(form))
            && end == i + tokens_of(form).len(),
    decreases tokens.len() - i, 0int,
{
    if let Ok((form, end)) = read_form(tokens, i) {
        lemma_read_form_advances(tokens, i);
        let open = seq![tokens[i]];
        assert(tokens.subrange(i, i + 1) =~= open);
        if let TokenView::Open(bracket) = tokens[i] {
            if bracket == '(' {
                lemma_read_items_were_written(tokens, i + 1, ')');
                let items = form->Call_0;
                lemma_stands_together(tokens, i, open, tokens_of_items(items) + seq![TokenView::Close(')')]);
                assert(open + (tokens_of_items(items) + seq![TokenView::Close(')')]) =~= tokens_of(
                    form,
                ));
            } else if bracket == '[' {
                lemma_read_items_were_written(tokens, i + 1, ']');
                let items = form->List_0;
                lemma_stands_together(tokens, i, open, tokens_of_items(items) + seq![TokenView::Close(']')]);
                assert(open + (tokens_of_items(items) + seq![TokenView::Close(']')]) =~= tokens_of(
                    form,
                ));
            } else {
                lemma_read_pairs_were_written(tokens, i + 1);
                let pairs = form->Mapping_0;
                lemma_stands_together(tokens, i, open, tokens_of_pairs(pairs) + seq![TokenView::Close('}')]);
                assert(open + (tokens_of_pairs(pairs) + seq![TokenView::Close('}')]) =~= tokens_of(
                    form,
                ));
            }
        } else {
            assert(tokens_of(form) =~= open);
        }
    }
}

/// The tokens that the forms of a call or a list were read from are the
/// tokens of those forms, and the bracket `close` stands after them.
pub proof fn lemma_read_items_were_written(tokens: Seq<TokenView>, i: int, close: char)
    ensures
        read_items(tokens, i, close) matches Ok((items, end)) ==> stands_at(
            tokens,
            i,
            tokens_of_items(items) + seq![TokenView::Close(close)],
        ) && end == i + tokens_of_items(items).len() + 1,
    decreases tokens.len() - i, 1int,
{
    if let Ok((items, end)) = read_items(tokens, i, close) {
        if tokens[i] is Close {
            assert(tokens.subrange(i, i + 1) =~= seq![TokenView::Close(close)]);
            assert(tokens_of_items(items) + seq![TokenView::Close(close)] =~= seq![
                TokenView::Close(close),
            ]);
        } else {
            lemma_read_form_advances(tokens, i);
            lemma_read_form_was_written(tokens, i);
            let (form, next) = read_form(tokens, i)->Ok_0;
            lemma_read_items_were_written(tokens, next, close);
            let rest = read_items(tokens, next, close)->Ok_0.0;
            assert(items == seq![form] + rest);
            assert(items.first() == form);
            assert(items.drop_first() =~= rest);
            let after = tokens_of_items(rest) + seq![TokenView::Close(close)];
            lemma_stands_together(tokens, i, tokens_of(form), after);
            assert(tokens_of(form) + after =~= tokens_of_items(items) + seq![
                TokenView::Close(close),
            ]);
        }
    }
}

/// The tokens that the keys and values of a map were read from are the
/// tokens of those forms, and the bracket `}` stands after them.
pub proof fn lemma_read_pairs_were_written(tokens: Seq<TokenView>, i: int)
    ensures
        read_pairs(tokens, i) matches Ok((pairs, end)) ==> stands_at(
            tokens,
            i,
            tokens_of_pairs(pairs) + seq![TokenView::Close('}')],
        ) && end == i + tokens_of_pairs(pairs).len() + 1,
    decreases tokens.len() - i, 1int,
{
    if let Ok((pairs, end)) = read_pairs(tokens, i) {
        if tokens[i] is Close {
            assert(tokens.subrange(i, i + 1) =~= seq![TokenView::Close('}')]);
            assert(tokens_of_pairs(pairs) + seq![TokenView::Close('}')] =~= seq![
                TokenView::Close('}'),
            ]);
        } else {
            lemma_read_form_advances(tokens, i);
            lemma_read_form_was_written(tokens, i);
            let (key, after_key) = read_form(tokens, i)->Ok_0;
            lemma_read_form_advances(tokens, after_key);
            lemma_read_form_was_written(tokens, after_key);
            let (value, next) = read_form(tokens, after_key)->Ok_0;
            lemma_read_pairs_were_written(tokens, next);
            let rest = read_pairs(tokens, next)->Ok_0.0;
            assert(pairs == seq![(key, value)] + rest);
            assert(pairs.first() == (key, value));
            assert(pairs.drop_first() =~= rest);
            let after = tokens_of_pairs(rest) + seq![TokenView::Close('}')];
            lemma_stands_together(tokens, after_key, tokens_of(value), after);
            lemma_stands_together(tokens, i, tokens_of(key), tokens_of(value) + after);
            assert(tokens_of(key) + (tokens_of(value) + after) =~= tokens_of_pairs(pairs) + seq![
                TokenView::Close('}'),
            ]);
        }
    }
}

} // verus!
