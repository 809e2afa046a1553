//! The reader: from a sequence of tokens to a tree of forms.
//!
//! [`parse`] reads one form from a position in a sequence of tokens and hands
//! it back with the position after it, where the next form can be read. What
//! it returns is [`read_form`] of the tokens' views.
use vstd::prelude::*;
use vstd::string::StringExecFns;
use crate::lexer::symbol::{Symbol, SymbolView};
use crate::lexer::token::{token_views, Token, TokenView};

pub mod written;

verus! {

/// A node of the syntax tree.
///
/// A floating-point number is kept as its decimal text, as in the token it
/// was read from.
#[derive(Debug, PartialEq, Eq)]
pub enum Form {
    /// A parenthesized application.
    Call(Vec<Form>),
    Symbol(Symbol),
    Float(String),
    Integer(i64),
    String(String),
    Char(char),
    Keyword(String),
    /// A bracketed sequence.
    List(Vec<Form>),
    /// A braced sequence of keys and values, in the order they were written.
    /// A key may occur more than once.
    Mapping(Vec<(Form, Form)>),
}

/// A form as sequences of characters and of forms.
pub enum FormView {
    Call(Seq<FormView>),
    Symbol(SymbolView),
    Float(Seq<char>),
    Integer(i64),
    String(Seq<char>),
    Char(char),
    Keyword(Seq<char>),
    List(Seq<FormView>),
    Mapping(Seq<(FormView, FormView)>),
}

impl View for Form {
    type V = FormView;

    open spec fn view(&self) -> FormView
        decreases self,
    {
        match self {
            Form::Call(items) => FormView::Call(
                Seq::new(
                    items@.len(),
                    |i: int|
                        if 0 <= i < items@.len() {
                            items@[i].view()
                        } else {
                            arbitrary()
                        },
                ),
            ),
            Form::Symbol(symbol) => FormView::Symbol(symbol@),
            Form::Float(text) => FormView::Float(text@),
            Form::Integer(value) => FormView::Integer(*value),
            Form::String(text) => FormView::String(text@),
            Form::Char(c) => FormView::Char(*c),
            Form::Keyword(name) => FormView::Keyword(name@),
            Form::List(items) => FormView::List(
                Seq::new(
                    items@.len(),
                    |i: int|
                        if 0 <= i < items@.len() {
                            items@[i].view()
                        } else {
                            arbitrary()
                        },
                ),
            ),
            Form::Mapping(pairs) => FormView::Mapping(
                Seq::new(
                    pairs@.len(),
                    |i: int|
                        if 0 <= i < pairs@.len() {
                            (pairs@[i].0.view(), pairs@[i].1.view())
                        } else {
                            arbitrary()
                        },
                ),
            ),
        }
    }
}

/// The views of a sequence of forms, in order.
pub open spec fn form_views(forms: Seq<Form>) -> Seq<FormView> {
    Seq::new(forms.len(), |i: int| forms[i]@)
}

/// The views of a sequence of pairs of forms, in order.
pub open spec fn pair_views(pairs: Seq<(Form, Form)>) -> Seq<(FormView, FormView)> {
    Seq::new(pairs.len(), |i: int| (pairs[i].0@, pairs[i].1@))
}

/// The view of a call holds the views of its forms.
pub proof fn lemma_call_view(forms: Vec<Form>)
    ensures
        Form::Call(forms)@ == FormView::Call(form_views(forms@)),
{
    reveal_with_fuel(<Form as View>::view, 2);
    assert(Form::Call(forms)@->Call_0 =~= form_views(forms@));
}

/// The view of a list holds the views of its forms.
pub proof fn lemma_list_view(forms: Vec<Form>)
    ensures
        Form::List(forms)@ == FormView::List(form_views(forms@)),
{
    reveal_with_fuel(<Form as View>::view, 2);
    assert(Form::List(forms)@->List_0 =~= form_views(forms@));
}

/// The view of a map holds the views of its keys and values.
pub proof fn lemma_mapping_view(pairs: Vec<(Form, Form)>)
    ensures
        Form::Mapping(pairs)@ == FormView::Mapping(pair_views(pairs@)),
{
    reveal_with_fuel(<Form as View>::view, 2);
    assert(Form::Mapping(pairs)@->Mapping_0 =~= pair_views(pairs@));
}

impl Clone for Form {
    fn clone(&self) -> (copy: Self)
        ensures
            copy@ == self@,
        decreases self,
    {
        match self {
            Form::Call(items) => {
                let copies = clone_forms(items);
                proof {
                    lemma_call_view(*items);
                    lemma_call_view(copies);
                }
                Form::Call(copies)
            },
            Form::Symbol(symbol) => Form::Symbol(symbol.clone()),
            Form::Float(text) => Form::Float(text.clone()),
            Form::Integer(value) => Form::Integer(*value),
            Form::String(text) => Form::String(text.clone()),
            Form::Char(c) => Form::Char(*c),
            Form::Keyword(name) => Form::Keyword(name.clone()),
            Form::List(items) => {
                let copies = clone_forms(items);
                proof {
                    lemma_list_view(*items);
                    lemma_list_view(copies);
                }
                Form::List(copies)
            },
            Form::Mapping(pairs) => {
                let copies = clone_pairs(pairs);
                proof {
                    lemma_mapping_view(*pairs);
                    lemma_mapping_view(copies);
                }
                Form::Mapping(copies)
            },
        }
    }
}

/// Copies of `pairs`, in order.
fn clone_pairs(pairs: &Vec<(Form, Form)>) -> (copies: Vec<(Form, Form)>)
    ensures
        pair_views(copies@) == pair_views(pairs@),
    decreases pairs,
{
    let mut copies: Vec<(Form, Form)> = Vec::new();
    let mut i: usize = 0;
    while i < pairs.len()
        invariant
            i <= pairs@.len(),
            copies@.len() == i,
            forall|k: int|
                0 <= k < i ==> (#[trigger] copies@[k]).0@ == pairs@[k].0@ && copies@[k].1@
                    == pairs@[k].1@,
        decreases pairs@.len() - i,
    {
        let key = pairs[i].0.clone();
        let value = pairs[i].1.clone();
        copies.push((key, value));
        i += 1;
    }
    assert(pair_views(copies@) =~= pair_views(pairs@));
    copies
}

/// Copies of `forms`, in order.
fn clone_forms(forms: &Vec<Form>) -> (copies: Vec<Form>)
    ensures
        form_views(copies@) == form_views(forms@),
    decreases forms,
{
    let mut copies: Vec<Form> = Vec::new();
    let mut i: usize = 0;
    while i < forms.len()
        invariant
            i <= forms@.len(),
            copies@.len() == i,
            forall|k: int| 0 <= k < i ==> (#[trigger] copies@[k])@ == forms@[k]@,
        decreases forms@.len() - i,
    {
        copies.push(forms[i].clone());
        i += 1;
    }
    assert(form_views(copies@) =~= form_views(forms@));
    copies
}

/// A structural error: why no form could be read.
#[derive(Debug, PartialEq, Eq)]
pub enum ParseError {
    /// The tokens ended where a form, or the end of a call, list or map, was
    /// still to come.
    UnexpectedEnd,
    /// A call, list or map was closed by the bracket `found`, not by its own,
    /// `expected`.
    Mismatched { found: char, expected: char },
    /// The token stands where a form should begin, and no form begins with
    /// it.
    UnexpectedToken(Token),
}

/// A structural error as sequences of characters.
pub enum ParseErrorView {
    UnexpectedEnd,
    Mismatched { found: char, expected: char },
    UnexpectedToken(TokenView),
}

impl ParseErrorView {
    /// The error in words.
    pub open spec fn message(self) -> Seq<char> {
        match self {
            ParseErrorView::UnexpectedEnd => "Unexpected end of input"@,
            ParseErrorView::Mismatched { found, expected } => "Unexpected token: `"@.push(found)
                + "`, expected `"@.push(expected) + "`"@,
            ParseErrorView::UnexpectedToken(token) => "Unexpected token: "@ + token.description(),
        }
    }
}

impl View for ParseError {
    type V = ParseErrorView;

    open spec fn view(&self) -> ParseErrorView {
        match self {
            ParseError::UnexpectedEnd => ParseErrorView::UnexpectedEnd,
            ParseError::Mismatched { found, expected } => ParseErrorView::Mismatched {
                found: *found,
                expected: *expected,
            },
            ParseError::UnexpectedToken(token) => ParseErrorView::UnexpectedToken(token@),
        }
    }
}

impl Clone for ParseError {
    fn clone(&self) -> (copy: Self)
        ensures
            copy@ == self@,
    {
        match self {
            ParseError::UnexpectedEnd => ParseError::UnexpectedEnd,
            ParseError::Mismatched { found, expected } => ParseError::Mismatched {
                found: *found,
                expected: *expected,
            },
            ParseError::UnexpectedToken(token) => ParseError::UnexpectedToken(token.clone()),
        }
    }
}

impl ParseError {
    /// The error in words, for a person to read.
    pub fn message(&self) -> (text: String)
        ensures
            text@ == self@.message(),
    {
        match self {
            ParseError::UnexpectedEnd => String::from_str("Unexpected end of input"),
            ParseError::Mismatched { found, expected } => {
                let mut text = String::from_str("Unexpected token: `");
                text.push(*found);
                text.append("`, expected `");
                text.push(*expected);
                text.append("`");
                assert(text@ =~= self@.message());
                text
            },
            ParseError::UnexpectedToken(token) => {
                let mut text = String::from_str("Unexpected token: ");
                text.append(token.description().as_str());
                text
            },
        }
    }
}

/// What reading one form gives: the form and the position after it.
pub type Read = Result<(FormView, int), ParseErrorView>;

/// What reading the forms of a call or a list gives.
pub type ReadItems = Result<(Seq<FormView>, int), ParseErrorView>;

/// What reading the keys and values of a map gives.
pub type ReadPairs = Result<(Seq<(FormView, FormView)>, int), ParseErrorView>;

/// The leaf form that a literal token becomes. A bracket becomes none.
pub open spec fn leaf(token: TokenView) -> Option<FormView> {
    match token {
        TokenView::Integer(value) => Some(FormView::Integer(value)),
        TokenView::Float(text) => Some(FormView::Float(text)),
        TokenView::String(text) => Some(FormView::String(text)),
        TokenView::Char(c) => Some(FormView::Char(c)),
        TokenView::Symbol(symbol) => Some(FormView::Symbol(symbol)),
        TokenView::Keyword(name) => Some(FormView::Keyword(name)),
        TokenView::Open(_) => None,
        TokenView::Close(_) => None,
    }
}

/// `form` put in front of the forms that follow it.
pub open spec fn item_then(form: FormView, rest: ReadItems) -> ReadItems {
    match rest {
        Ok((forms, end)) => Ok((seq![form] + forms, end)),
        Err(e) => Err(e),
    }
}

/// `pair` put in front of the pairs that follow it.
pub open spec fn pair_then(pair: (FormView, FormView), rest: ReadPairs) -> ReadPairs {
    match rest {
        Ok((pairs, end)) => Ok((seq![pair] + pairs, end)),
        Err(e) => Err(e),
    }
}

/// The form that begins at position `i` of `tokens`, and the position after
/// it; or why there is none.
///
/// `(` begins a call, `[` a list and `{` a map; a literal token is a form by
/// itself. At the end of the tokens there is no form, and none begins with a
/// closing bracket.
pub open spec fn read_form(tokens: Seq<TokenView>, i: int) -> Read
    decreases tokens.len() - i, 0int,
{
    if !(0 <= i < tokens.len()) {
        Err(ParseErrorView::UnexpectedEnd)
    } else {
        match tokens[i] {
            TokenView::Open(bracket) => {
                if bracket == '(' {
                    read_call(tokens, i + 1)
                } else if bracket == '[' {
                    read_list(tokens, i + 1)
                } else if bracket == '{' {
                    read_map(tokens, i + 1)
                } else {
                    Err(ParseErrorView::UnexpectedToken(tokens[i]))
                }
            },
            TokenView::Close(_) => Err(ParseErrorView::UnexpectedToken(tokens[i])),
            token => Ok((leaf(token)->0, i + 1)),
        }
    }
}

/// The call whose forms begin at position `i`, right after the `(`.
pub open spec fn read_call(tokens: Seq<TokenView>, i: int) -> Read
    decreases tokens.len() - i, 2int,
{
    match read_items(tokens, i, ')') {
        Ok((forms, end)) => Ok((FormView::Call(forms), end)),
        Err(e) => Err(e),
    }
}

/// The list whose forms begin at position `i`, right after the `[`.
pub open spec fn read_list(tokens: Seq<TokenView>, i: int) -> Read
    decreases tokens.len() - i, 2int,
{
    match read_items(tokens, i, ']') {
        Ok((forms, end)) => Ok((FormView::List(forms), end)),
        Err(e) => Err(e),
    }
}

/// The map whose keys and values begin at position `i`, right after the `{`.
pub open spec fn read_map(tokens: Seq<TokenView>, i: int) -> Read
    decreases tokens.len() - i, 2int,
{
    match read_pairs(tokens, i) {
        Ok((pairs, end)) => Ok((FormView::Mapping(pairs), end)),
        Err(e) => Err(e),
    }
}

/// The forms from position `i` up to the bracket `close`, and the position
/// after that bracket. Another closing bracket in its place is an error, and
/// so is the end of the tokens.
///
/// A form always ends after where it begins (`lemma_read_form_advances`);
/// the definition asks for it only to show that the reading comes to an end.
pub open spec fn read_items(tokens: Seq<TokenView>, i: int, close: char) -> ReadItems
    decreases tokens.len() - i, 1int,
{
    if !(0 <= i < tokens.len()) {
        Err(ParseErrorView::UnexpectedEnd)
    } else if let TokenView::Close(bracket) = tokens[i] {
        if bracket == close {
            Ok((Seq::empty(), i + 1))
        } else {
            Err(ParseErrorView::Mismatched { found: bracket, expected: close })
        }
    } else {
        match read_form(tokens, i) {
            Ok((form, next)) if i < next <= tokens.len() => item_then(form, read_items(tokens, next, close)),
            Ok(_) => Err(ParseErrorView::UnexpectedEnd),
            Err(e) => Err(e),
        }
    }
}

/// The keys and values from position `i` up to the bracket `}`, and the
/// position after that bracket. Each key is one form and its value the form
/// after it, so a closing bracket in the place of a value is a token that no
/// form begins with.
///
/// As in [`read_items`], that a form ends after where it begins is asked for
/// only to show that the reading comes to an end.
pub open spec fn read_pairs(tokens: Seq<TokenView>, i: int) -> ReadPairs
    decreases tokens.len() - i, 1int,
{
    if !(0 <= i < tokens.len()) {
        Err(ParseErrorView::UnexpectedEnd)
    } else if let TokenView::Close(bracket) = tokens[i] {
        if bracket == '}' {
            Ok((Seq::empty(), i + 1))
        } else {
            Err(ParseErrorView::Mismatched { found: bracket, expected: '}' })
        }
    } else {
        match read_form(tokens, i) {
            Ok((key, after_key)) if i < after_key <= tokens.len() => match read_form(tokens, after_key) {
                Ok((value, next)) if after_key < next <= tokens.len() => pair_then(
                    (key, value),
                    read_pairs(tokens, next),
                ),
                Ok(_) => Err(ParseErrorView::UnexpectedEnd),
                Err(e) => Err(e),
            },
            Ok(_) => Err(ParseErrorView::UnexpectedEnd),
            Err(e) => Err(e),
        }
    }
}

/// `form` put in front of the forms that follow it, up to the end.
pub open spec fn form_then(
    form: FormView,
    rest: Result<Seq<FormView>, ParseErrorView>,
) -> Result<Seq<FormView>, ParseErrorView> {
    match rest {
        Ok(forms) => Ok(seq![form] + forms),
        Err(e) => Err(e),
    }
}

/// All the forms of `tokens` from position `i` on, read one after the other
/// until the tokens are used up; or the first structural error.
pub open spec fn read_all(tokens: Seq<TokenView>, i: int) -> Result<Seq<FormView>, ParseErrorView>
    decreases tokens.len() - i,
{
    if !(0 <= i < tokens.len()) {
        Ok(Seq::empty())
    } else {
        match read_form(tokens, i) {
            Ok((form, next)) => {
                proof {
                    lemma_read_form_advances(tokens, i);
                }
                form_then(form, read_all(tokens, next))
            },
            Err(e) => Err(e),
        }
    }
}

/// A form takes at least one token, and none past the end.
pub proof fn lemma_read_form_advances(tokens: Seq<TokenView>, i: int)
    ensures
        read_form(tokens, i) matches Ok((_, end)) ==> 0 <= i < end <= tokens.len(),
    decreases tokens.len() - i, 0int,
{
    if 0 <= i < tokens.len() {
        if let TokenView::Open(bracket) = tokens[i] {
            if bracket == '(' {
                lemma_read_items_advances(tokens, i + 1, ')');
            } else if bracket == '[' {
                lemma_read_items_advances(tokens, i + 1, ']');
            } else if bracket == '{' {
                lemma_read_pairs_advances(tokens, i + 1);
            }
        }
    }
}

/// The forms of a call or a list end after where they begin, and inside the
/// tokens.
pub proof fn lemma_read_items_advances(tokens: Seq<TokenView>, i: int, close: char)
    ensures
        read_items(tokens, i, close) matches Ok((_, end)) ==> 0 <= i < end <= tokens.len(),
    decreases tokens.len() - i, 1int,
{
    if 0 <= i < tokens.len() && !(tokens[i] is Close) {
        lemma_read_form_advances(tokens, i);
        if let Ok((_, next)) = read_form(tokens, i) {
            lemma_read_items_advances(tokens, next, close);
        }
    }
}

/// The pairs of a map end after where they begin, and inside the tokens.
pub proof fn lemma_read_pairs_advances(tokens: Seq<TokenView>, i: int)
    ensures
        read_pairs(tokens, i) matches Ok((_, end)) ==> 0 <= i < end <= tokens.len(),
    decreases tokens.len() - i, 1int,
{
    if 0 <= i < tokens.len() && !(tokens[i] is Close) {
        lemma_read_form_advances(tokens, i);
        if let Ok((_, after_key)) = read_form(tokens, i) {
            lemma_read_form_advances(tokens, after_key);
            if let Ok((_, next)) = read_form(tokens, after_key) {
                lemma_read_pairs_advances(tokens, next);
            }
        }
    }
}

/// What a function that reads one form returned, as [`read_form`] states it.
pub open spec fn read_view(r: Result<(Form, usize), ParseError>) -> Read {
    match r {
        Ok((form, end)) => Ok((form@, end as int)),
        Err(e) => Err(e@),
    }
}

/// `read` put in front of the forms that follow.
spec fn items_after(read: Seq<FormView>, rest: ReadItems) -> ReadItems {
    match rest {
        Ok((forms, end)) => Ok((read + forms, end)),
        Err(e) => Err(e),
    }
}

/// `read` put in front of the pairs that follow.
spec fn pairs_after(read: Seq<(FormView, FormView)>, rest: ReadPairs) -> ReadPairs {
    match rest {
        Ok((pairs, end)) => Ok((read + pairs, end)),
        Err(e) => Err(e),
    }
}

proof fn lemma_items_after_push(read: Seq<FormView>, form: FormView, rest: ReadItems)
    ensures
        items_after(read, item_then(form, rest)) == items_after(read.push(form), rest),
{
    if let Ok((forms, end)) = rest {
        assert(read + (seq![form] + forms) =~= read.push(form) + forms);
    }
}

proof fn lemma_pairs_after_push(
    read: Seq<(FormView, FormView)>,
    pair: (FormView, FormView),
    rest: ReadPairs,
)
    ensures
        pairs_after(read, pair_then(pair, rest)) == pairs_after(read.push(pair), rest),
{
    if let Ok((pairs, end)) = rest {
        assert(read + (seq![pair] + pairs) =~= read.push(pair) + pairs);
    }
}

/// Reads one form from position `start` of `tokens`: the form and the
/// position after it, or the first structural error.
pub fn parse(tokens: &[Token], start: usize) -> (r: Result<(Form, usize), ParseError>)
    ensures
        read_view(r) == read_form(token_views(tokens@), start as int),
        r matches Ok((_, end)) ==> start < end <= tokens@.len(),
    decreases tokens@.len() - start, 0int,
{
    if start >= tokens.len() {
        return Err(ParseError::UnexpectedEnd);
    }
    proof {
        lemma_read_form_advances(token_views(tokens@), start as int);
    }
    match &tokens[start] {
        Token::Open(bracket) => {
            if *bracket == '(' {
                parse_call(tokens, start + 1)
            } else if *bracket == '[' {
                parse_list(tokens, start + 1)
            } else if *bracket == '{' {
                parse_map(tokens, start + 1)
            } else {
                Err(ParseError::UnexpectedToken(tokens[start].clone()))
            }
        },
        Token::Close(_) => Err(ParseError::UnexpectedToken(tokens[start].clone())),
        Token::Integer(value) => Ok((Form::Integer(*value), start + 1)),
        Token::Float(text) => Ok((Form::Float(text.clone()), start + 1)),
        Token::String(text) => Ok((Form::String(text.clone()), start + 1)),
        Token::Char(c) => Ok((Form::Char(*c), start + 1)),
        Token::Symbol(symbol) => Ok((Form::Symbol(symbol.clone()), start + 1)),
        Token::Keyword(name) => Ok((Form::Keyword(name.clone()), start + 1)),
    }
}

/// Reads forms from position `start` up to the bracket `close`.
fn parse_items(tokens: &[Token], start: usize, close: char) -> (r: Result<
    (Vec<Form>, usize),
    ParseError,
>)
    ensures
        match r {
            Ok((forms, end)) => read_items(token_views(tokens@), start as int, close) == Ok::<
                _,
                ParseErrorView,
            >((form_views(forms@), end as int)),
            Err(e) => read_items(token_views(tokens@), start as int, close) == Err::<
                (Seq<FormView>, int),
                _,
            >(e@),
        },
    decreases tokens@.len() - start, 1int,
{
    let ghost views = token_views(tokens@);
    let mut forms: Vec<Form> = Vec::new();
    let mut i: usize = start;
    assert(items_after(form_views(forms@), read_items(views, i as int, close)) == read_items(
        views,
        start as int,
        close,
    )) by {
        if let Ok((rest, end)) = read_items(views, i as int, close) {
            assert(form_views(forms@) + rest =~= rest);
        }
    }
    loop
        invariant
            views == token_views(tokens@),
            start <= i,
            read_items(views, start as int, close) == items_after(
                form_views(forms@),
                read_items(views, i as int, close),
            ),
        decreases tokens@.len() - i,
    {
        if i >= tokens.len() {
            return Err(ParseError::UnexpectedEnd);
        }
        if let Token::Close(bracket) = &tokens[i] {
            if *bracket == close {
                assert(form_views(forms@) + Seq::<FormView>::empty() =~= form_views(forms@));
                return Ok((forms, i + 1));
            } else {
                return Err(ParseError::Mismatched { found: *bracket, expected: close });
            }
        }
        match parse(tokens, i) {
            Ok((form, next)) => {
                proof {
                    lemma_items_after_push(
                        form_views(forms@),
                        form@,
                        read_items(views, next as int, close),
                    );
                }
                let ghost read = form_views(forms@);
                forms.push(form);
                assert(form_views(forms@) =~= read.push(form@));
                i = next;
            },
            Err(e) => {
                return Err(e);
            },
        }
    }
}

/// Reads the forms of a call from position `start`, right after the `(`, up
/// to the `)` that closes it.
pub fn parse_call(tokens: &[Token], start: usize) -> (r: Result<(Form, usize), ParseError>)
    ensures
        read_view(r) == read_call(token_views(tokens@), start as int),
    decreases tokens@.len() - start, 2int,
{
    match parse_items(tokens, start, ')') {
        Ok((forms, end)) => {
            proof {
                lemma_call_view(forms);
            }
            let form = Form::Call(forms);
            Ok((form, end))
        },
        Err(e) => Err(e),
    }
}

/// Reads the forms of a list from position `start`, right after the `[`, up
/// to the `]` that closes it.
pub fn parse_list(tokens: &[Token], start: usize) -> (r: Result<(Form, usize), ParseError>)
    ensures
        read_view(r) == read_list(token_views(tokens@), start as int),
    decreases tokens@.len() - start, 2int,
{
    match parse_items(tokens, start, ']') {
        Ok((forms, end)) => {
            proof {
                lemma_list_view(forms);
            }
            let form = Form::List(forms);
            Ok((form, end))
        },
        Err(e) => Err(e),
    }
}

/// Reads the keys and values of a map from position `start`, right after the
/// `{`, up to the `}` that closes it.
pub fn parse_map(tokens: &[Token], start: usize) -> (r: Result<(Form, usize), ParseError>)
    ensures
        read_view(r) == read_map(token_views(tokens@), start as int),
    decreases tokens@.len() - start, 2int,
{
    let ghost views = token_views(tokens@);
    let mut pairs: Vec<(Form, Form)> = Vec::new();
    let mut i: usize = start;
    assert(pairs_after(pair_views(pairs@), read_pairs(views, i as int)) == read_pairs(
        views,
        start as int,
    )) by {
        if let Ok((rest, end)) = read_pairs(views, i as int) {
            assert(pair_views(pairs@) + rest =~= rest);
        }
    }
    loop
        invariant
            views == token_views(tokens@),
            start <= i,
            read_pairs(views, start as int) == pairs_after(
                pair_views(pairs@),
                read_pairs(views, i as int),
            ),
        decreases tokens@.len() - i,
    {
        if i >= tokens.len() {
            return Err(ParseError::UnexpectedEnd);
        }
        if let Token::Close(bracket) = &tokens[i] {
            if *bracket == '}' {
                assert(pair_views(pairs@) + Seq::<(FormView, FormView)>::empty() =~= pair_views(
                    pairs@,
                ));
                proof {
                    lemma_mapping_view(pairs);
                }
                let form = Form::Mapping(pairs);
                return Ok((form, i + 1));
            } else {
                return Err(ParseError::Mismatched { found: *bracket, expected: '}' });
            }
        }
        let (key, after_key) = match parse(tokens, i) {
            Ok(read) => read,
            Err(e) => {
                return Err(e);
            },
        };
        let (value, next) = match parse(tokens, after_key) {
            Ok(read) => read,
            Err(e) => {
                return Err(e);
            },
        };
        proof {
            lemma_pairs_after_push(
                pair_views(pairs@),
                (key@, value@),
                read_pairs(views, next as int),
            );
        }
        let ghost read = pair_views(pairs@);
        pairs.push((key, value));
        assert(pair_views(pairs@) =~= read.push((key@, value@)));
        i = next;
    }
}

/// `read` put in front of the forms that follow, up to the end.
spec fn forms_after(
    read: Seq<FormView>,
    rest: Result<Seq<FormView>, ParseErrorView>,
) -> Result<Seq<FormView>, ParseErrorView> {
    match rest {
        Ok(forms) => Ok(read + forms),
        Err(e) => Err(e),
    }
}

/// What reading all the forms returned, as [`read_all`] states it.
pub open spec fn read_all_view(r: Result<Vec<Form>, ParseError>) -> Result<
    Seq<FormView>,
    ParseErrorView,
> {
    match r {
        Ok(forms) => Ok(form_views(forms@)),
        Err(e) => Err(e@),
    }
}

/// Reads all the forms of `tokens`, one after the other, until the tokens
/// are used up: the forms in order, or the first structural error.
pub fn parse_all(tokens: &[Token]) -> (r: Result<Vec<Form>, ParseError>)
    ensures
        read_all_view(r) == read_all(token_views(tokens@), 0),
{
    let ghost views = token_views(tokens@);
    let mut forms: Vec<Form> = Vec::new();
    let mut i: usize = 0;
    assert(forms_after(form_views(forms@), read_all(views, 0)) == read_all(views, 0)) by {
        if let Ok(rest) = read_all(views, 0) {
            assert(form_views(forms@) + rest =~= rest);
        }
    }
    while i < tokens.len()
        invariant
            views == token_views(tokens@),
            i <= tokens@.len(),
            read_all(views, 0) == forms_after(form_views(forms@), read_all(views, i as int)),
        decreases tokens@.len() - i,
    {
        match parse(tokens, i) {
            Ok((form, next)) => {
                proof {
                    if let Ok(rest) = read_all(views, next as int) {
                        assert(form_views(forms@) + (seq![form@] + rest) =~= form_views(
                            forms@,
                        ).push(form@) + rest);
                    }
                }
                let ghost read = form_views(forms@);
                forms.push(form);
                assert(form_views(forms@) =~= read.push(form@));
                i = next;
            },
            Err(e) => {
                return Err(e);
            },
        }
    }
    assert(form_views(forms@) + Seq::<FormView>::empty() =~= form_views(forms@));
    Ok(forms)
}

} // verus!
