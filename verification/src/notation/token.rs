//! Rust code as tokens.
use quote::ToTokens;
use syn::{Expr, ExprUnary};
use vstd::prelude::*;
use vstd::string::*;

verus! {

/// What a token is.
#[derive(Clone, Copy, Debug, PartialEq, Eq, Structural)]
pub enum Kind {
    /// A name or a keyword.
    Word,
    /// A punctuation character.
    Mark,
    /// A literal.
    Literal,
    /// Tokens in brackets of some kind.
    Group,
}

/// What a token holds.
#[verifier::ext_equal]
pub struct TokenView {
    /// What it is.
    pub kind: Kind,
    /// How it is written, the brackets of a group included.
    pub text: Seq<char>,
    /// The next token follows without a gap.
    pub joint: bool,
    /// What stands between the brackets of a group.
    pub inner: Seq<char>,
}

/// A token, or tokens in brackets.
#[derive(Debug)]
pub struct Token {
    /// What it is.
    pub kind: Kind,
    /// How it is written, the brackets of a group included.
    pub text: String,
    /// The next token follows without a gap.
    pub joint: bool,
    /// What stands between the brackets of a group.
    pub inner: String,
}

impl View for Token {
    type V = TokenView;

    open spec fn view(&self) -> TokenView {
        TokenView { kind: self.kind, text: self.text@, joint: self.joint, inner: self.inner@ }
    }
}

/// The views of some tokens.
pub open spec fn seen(ts: Seq<Token>) -> Seq<TokenView> {
    ts.map_values(|t: Token| t@)
}

impl Token {
    /// A token without brackets.
    pub fn plain(kind: Kind, text: String, joint: bool) -> (r: Self)
        ensures
            r@ == (TokenView { kind, text: text@, joint, inner: Seq::empty() }),
    {
        Token { kind, text, joint, inner: String::new() }
    }

    /// Tokens in brackets.
    pub fn group(text: String, inner: String) -> (r: Self)
        ensures
            r@ == (TokenView { kind: Kind::Group, text: text@, joint: false, inner: inner@ }),
    {
        Token { kind: Kind::Group, text, joint: false, inner }
    }
}

impl TokenView {
    /// The token with the gap after it.
    pub open spec fn shown(self) -> Seq<char> {
        if self.joint {
            self.text
        } else {
            self.text.push(' ')
        }
    }

    /// The token is this word.
    pub open spec fn is_word(self, w: Seq<char>) -> bool {
        self.kind == Kind::Word && self.text == w
    }

    /// The token is this punctuation character.
    pub open spec fn is_mark(self, c: char) -> bool {
        self.kind == Kind::Mark && self.text == seq![c]
    }

    /// The token is a group in brackets that open with this character.
    pub open spec fn is_group(self, c: char) -> bool {
        self.kind == Kind::Group && self.text.len() > 0 && self.text[0] == c
    }
}

/// Tokens as text.
pub open spec fn rendered(ts: Seq<TokenView>) -> Seq<char>
    decreases ts.len(),
{
    if ts.len() == 0 {
        Seq::empty()
    } else {
        rendered(ts.drop_last()) + ts.last().shown()
    }
}

/// The tokens from `from` up to `to`, as text.
pub fn render(ts: &Vec<Token>, from: usize, to: usize) -> (r: String)
    requires
        from <= to <= ts@.len(),
    ensures
        r@ == rendered(seen(ts@).subrange(from as int, to as int)),
{
    let mut out: String = String::new();
    let mut i: usize = from;
    let ghost all = seen(ts@);
    assert(all.subrange(from as int, from as int) =~= Seq::empty());
    assert(out@ =~= Seq::empty());
    while i < to
        invariant
            from <= i <= to <= ts@.len(),
            all == seen(ts@),
            out@ == rendered(all.subrange(from as int, i as int)),
        decreases to - i,
    {
        let ghost was = out@;
        out.append(ts[i].text.as_str());
        if !ts[i].joint {
            proof {
                reveal_strlit(" ");
            }
            out.append(" ");
        }
        proof {
            let up = all.subrange(from as int, i + 1);
            assert(up.drop_last() =~= all.subrange(from as int, i as int));
            assert(up.last() == ts@[i as int]@);
            assert(out@ =~= was + up.last().shown());
        }
        i = i + 1;
    }
    out
}

/// The token at `i` is this word.
pub open spec fn word_at(ts: Seq<TokenView>, i: int, w: Seq<char>) -> bool {
    0 <= i < ts.len() && ts[i].is_word(w)
}

/// The token at `i` is this punctuation character.
pub open spec fn mark_at(ts: Seq<TokenView>, i: int, c: char) -> bool {
    0 <= i < ts.len() && ts[i].is_mark(c)
}

/// The token at `i` is a group in brackets that open with this character.
pub open spec fn group_at(ts: Seq<TokenView>, i: int, c: char) -> bool {
    0 <= i < ts.len() && ts[i].is_group(c)
}

/// The token at `i` is this word.
pub fn has_word(ts: &Vec<Token>, i: usize, w: &str) -> (r: bool)
    ensures
        r == word_at(seen(ts@), i as int, w@),
{
    if i < ts.len() {
        matches!(ts[i].kind, Kind::Word) && crate::text::same(ts[i].text.as_str(), w)
    } else {
        false
    }
}

/// The token at `i` is this punctuation character.
pub fn has_mark(ts: &Vec<Token>, i: usize, c: char) -> (r: bool)
    ensures
        r == mark_at(seen(ts@), i as int, c),
{
    if i < ts.len() {
        let t: &str = ts[i].text.as_str();
        let r: bool = matches!(ts[i].kind, Kind::Mark) && t.unicode_len() == 1 && t.get_char(0)
            == c;
        assert(r ==> t@ =~= seq![c]);
        r
    } else {
        false
    }
}

/// The token at `i` is a group in brackets that open with this character.
pub fn has_group(ts: &Vec<Token>, i: usize, c: char) -> (r: bool)
    ensures
        r == group_at(seen(ts@), i as int, c),
{
    if i < ts.len() {
        let t: &str = ts[i].text.as_str();
        matches!(ts[i].kind, Kind::Group) && t.unicode_len() > 0 && t.get_char(0) == c
    } else {
        false
    }
}

/// The tokens of a text, as `proc_macro2::TokenStream` reads them: its top
/// level, with the contents of each group as text. Nothing where it rejects
/// the text.
pub uninterp spec fn lexed(text: Seq<char>) -> Option<Seq<TokenView>>;

/// Calls `<proc_macro2::TokenStream as FromStr>::from_str`, and writes each
/// token tree with its `Display`. The claim is that the trees depend on the
/// text alone; nothing is said of how code is split into tokens. Without its
/// `proc-macro` feature the crate knows no tokens but its own.
#[verifier::external_body]
pub(crate) fn lex(text: &str) -> (r: Option<Vec<Token>>)
    ensures
        lexed(text@) == (match r {
            Some(v) => Some(seen(v@)),
            None => None,
        }),
{
    let stream: proc_macro2::TokenStream = text.parse().ok()?;
    let tree = |t| match t {
        proc_macro2::TokenTree::Ident(i) => Token::plain(Kind::Word, i.to_string(), false),
        proc_macro2::TokenTree::Literal(l) => Token::plain(Kind::Literal, l.to_string(), false),
        proc_macro2::TokenTree::Group(g) => Token::group(g.to_string(), g.stream().to_string()),
        proc_macro2::TokenTree::Punct(p) => Token::plain(
            Kind::Mark,
            p.as_char().to_string(),
            matches!(p.spacing(), proc_macro2::Spacing::Joint),
        ),
    };
    Some(stream.into_iter().map(tree).collect())
}

/// How many token trees are left after the expression that `syn` reads from
/// the start of a text, or why it reads none.
pub uninterp spec fn expr_rest(text: Seq<char>) -> Result<usize, Seq<char>>;

/// Calls `<syn::Expr as Parse>::parse` on the start of a text, and counts the
/// token trees that it leaves. The claim is that the count, or the message of
/// the error, depends on the text alone; nothing is said of the grammar.
#[verifier::external_body]
pub(crate) fn read_expr(text: &str) -> (r: Result<usize, String>)
    ensures
        expr_rest(text@) == shown_read(r),
{
    let reader = |input: syn::parse::ParseStream| {
        input.parse::<syn::Expr>()?;
        input.parse::<proc_macro2::TokenStream>()
    };
    match syn::parse::Parser::parse_str(reader, text) {
        Ok(rest) => Ok(rest.into_iter().count()),
        Err(e) => Err(e.to_string()),
    }
}

/// As `expr_rest`, for an expression that a brace ends.
pub uninterp spec fn bare_expr_rest(text: Seq<char>) -> Result<usize, Seq<char>>;

/// Calls `syn::Expr::parse_without_eager_brace` on the start of a text, and
/// counts the token trees that it leaves. The claim is that the count, or the
/// message of the error, depends on the text alone.
#[verifier::external_body]
pub(crate) fn read_bare_expr(text: &str) -> (r: Result<usize, String>)
    ensures
        bare_expr_rest(text@) == shown_read(r),
{
    let reader = |input: syn::parse::ParseStream| {
        syn::Expr::parse_without_eager_brace(input)?;
        input.parse::<proc_macro2::TokenStream>()
    };
    match syn::parse::Parser::parse_str(reader, text) {
        Ok(rest) => Ok(rest.into_iter().count()),
        Err(e) => Err(e.to_string()),
    }
}

/// How many token trees are left after the statement that `syn` reads from
/// the start of a text, or why it reads none.
pub uninterp spec fn stmt_rest(text: Seq<char>) -> Result<usize, Seq<char>>;

/// Calls `<syn::Stmt as Parse>::parse` on the start of a text, and counts the
/// token trees that it leaves. The claim is that the count, or the message of
/// the error, depends on the text alone.
#[verifier::external_body]
pub(crate) fn read_stmt(text: &str) -> (r: Result<usize, String>)
    ensures
        stmt_rest(text@) == shown_read(r),
{
    let reader = |input: syn::parse::ParseStream| {
        input.parse::<syn::Stmt>()?;
        input.parse::<proc_macro2::TokenStream>()
    };
    match syn::parse::Parser::parse_str(reader, text) {
        Ok(rest) => Ok(rest.into_iter().count()),
        Err(e) => Err(e.to_string()),
    }
}

/// What a reading gives, with its message as characters.
pub open spec fn shown_read(r: Result<usize, String>) -> Result<usize, Seq<char>> {
    match r {
        Ok(n) => Ok(n),
        Err(e) => Err(e@),
    }
}

/// The text is a name that is no keyword.
pub uninterp spec fn name(text: Seq<char>) -> bool;

/// Calls `syn::parse_str::<syn::Ident>`. The claim is that its success depends
/// on the text alone.
#[verifier::external_body]
pub(crate) fn is_name(text: &str) -> (r: bool)
    ensures
        r == name(text@),
{
    syn::parse_str::<syn::Ident>(text).is_ok()
}

/// What a literal is.
#[verifier::ext_equal]
pub enum LitView {
    /// A number with a point or an exponent, as decimal digits.
    Float(Seq<char>),
    /// A whole number, as decimal digits.
    Int(Seq<char>),
    /// A text.
    Text(Seq<char>),
    /// Anything else.
    Other,
}

/// What a literal is.
#[derive(Debug)]
pub enum Lit {
    /// A number with a point or an exponent, as decimal digits.
    Float(String),
    /// A whole number, as decimal digits.
    Int(String),
    /// A text.
    Text(String),
    /// Anything else.
    Other,
}

impl View for Lit {
    type V = LitView;

    open spec fn view(&self) -> LitView {
        match *self {
            Lit::Float(d) => LitView::Float(d@),
            Lit::Int(d) => LitView::Int(d@),
            Lit::Text(t) => LitView::Text(t@),
            Lit::Other => LitView::Other,
        }
    }
}

/// What the literal that a text is holds, or why it is none.
pub uninterp spec fn literal(text: Seq<char>) -> Result<LitView, Seq<char>>;

/// Calls `syn::parse_str::<syn::Lit>`, and takes the digits of a number
/// (`base10_digits`) or the value of a text (`value`) out of it. The claim is
/// that they depend on the text alone.
#[verifier::external_body]
pub(crate) fn read_literal(text: &str) -> (r: Result<Lit, String>)
    ensures
        literal(text@) == (match r {
            Ok(l) => Ok(l@),
            Err(e) => Err(e@),
        }),
{
    match syn::parse_str::<syn::Lit>(text) {
        Ok(syn::Lit::Float(f)) => Ok(Lit::Float(f.base10_digits().to_string())),
        Ok(syn::Lit::Int(i)) => Ok(Lit::Int(i.base10_digits().to_string())),
        Ok(syn::Lit::Str(s)) => Ok(Lit::Text(s.value())),
        Ok(_) => Ok(Lit::Other),
        Err(e) => Err(e.to_string()),
    }
}

/// A text as a string literal.
pub uninterp spec fn quoted(text: Seq<char>) -> Seq<char>;

/// Calls `proc_macro2::Literal::string`, and writes the literal with its
/// `Display`. The claim is that the result depends on the text alone; nothing
/// is said of how characters are escaped.
#[verifier::external_body]
pub(crate) fn string_literal(text: &str) -> (r: String)
    ensures
        r@ == quoted(text@),
{
    proc_macro2::Literal::string(text).to_string()
}

/// What a statement is.
#[verifier::ext_equal]
pub enum StmtShapeView {
    /// An expression.
    Expr {
        /// The expression.
        expr: Seq<char>,
        /// It ends with a semicolon.
        semi: bool,
    },
    /// Any other statement.
    Other,
    /// No statement.
    Bad,
}

/// What a statement is.
#[derive(Debug)]
pub enum StmtShape {
    /// An expression.
    Expr {
        /// The expression.
        expr: String,
        /// It ends with a semicolon.
        semi: bool,
    },
    /// Any other statement.
    Other,
    /// No statement.
    Bad,
}

impl View for StmtShape {
    type V = StmtShapeView;

    open spec fn view(&self) -> StmtShapeView {
        match *self {
            StmtShape::Expr { expr, semi } => StmtShapeView::Expr { expr: expr@, semi },
            StmtShape::Other => StmtShapeView::Other,
            StmtShape::Bad => StmtShapeView::Bad,
        }
    }
}

/// What the statement that a text is holds.
pub uninterp spec fn stmt_shape(text: Seq<char>) -> StmtShapeView;

/// Calls `syn::parse_str::<syn::Stmt>`, and writes the expression in it with
/// `quote::ToTokens` and `Display`. The claim is that the result depends on
/// the text alone.
#[verifier::external_body]
pub(crate) fn read_stmt_shape(text: &str) -> (r: StmtShape)
    ensures
        r@ == stmt_shape(text@),
{
    match syn::parse_str::<syn::Stmt>(text) {
        Ok(syn::Stmt::Expr(e, semi)) => StmtShape::Expr {
            expr: e.to_token_stream().to_string(),
            semi: semi.is_some(),
        },
        Ok(_) => StmtShape::Other,
        Err(_) => StmtShape::Bad,
    }
}

/// What an expression is.
#[verifier::ext_equal]
pub enum ExprShapeView {
    /// A call of a method.
    Call {
        /// What it is called on.
        receiver: Seq<char>,
        /// The name of the method.
        method: Seq<char>,
        /// Its type arguments.
        types: Seq<char>,
        /// The arguments.
        args: Seq<char>,
    },
    /// A block.
    Block {
        /// Its label.
        label: Option<Seq<char>>,
        /// Its statements.
        stmts: Seq<Seq<char>>,
    },
    /// The negation of an expression.
    Neg(Seq<char>),
    /// Any other expression, or none.
    Other,
}

/// What an expression is.
#[derive(Debug)]
pub enum ExprShape {
    /// A call of a method.
    Call {
        /// What it is called on.
        receiver: String,
        /// The name of the method.
        method: String,
        /// Its type arguments.
        types: String,
        /// The arguments.
        args: String,
    },
    /// A block.
    Block {
        /// Its label.
        label: Option<String>,
        /// Its statements.
        stmts: Vec<String>,
    },
    /// The negation of an expression.
    Neg(String),
    /// Any other expression, or none.
    Other,
}

/// The texts as characters.
pub open spec fn spelled(v: Seq<String>) -> Seq<Seq<char>> {
    v.map_values(|s: String| s@)
}

impl View for ExprShape {
    type V = ExprShapeView;

    open spec fn view(&self) -> ExprShapeView {
        match *self {
            ExprShape::Call { receiver, method, types, args } => ExprShapeView::Call {
                receiver: receiver@,
                method: method@,
                types: types@,
                args: args@,
            },
            ExprShape::Block { label, stmts } => ExprShapeView::Block {
                label: match label {
                    Some(l) => Some(l@),
                    None => None,
                },
                stmts: spelled(stmts@),
            },
            ExprShape::Neg(e) => ExprShapeView::Neg(e@),
            ExprShape::Other => ExprShapeView::Other,
        }
    }
}

/// What the expression that a text is holds.
pub uninterp spec fn expr_shape(text: Seq<char>) -> ExprShapeView;

/// Calls `syn::parse_str::<syn::Expr>`, and writes the parts of the
/// expression with `quote::ToTokens` and `Display`. The claim is that the
/// result depends on the text alone.
#[verifier::external_body]
pub(crate) fn read_expr_shape(text: &str) -> (r: ExprShape)
    ensures
        r@ == expr_shape(text@),
{
    match syn::parse_str::<Expr>(text) {
        Ok(Expr::MethodCall(c)) => ExprShape::Call {
            receiver: c.receiver.to_token_stream().to_string(),
            method: c.method.to_string(),
            types: c.turbofish.to_token_stream().to_string(),
            args: c.args.to_token_stream().to_string(),
        },
        Ok(Expr::Block(b)) => ExprShape::Block {
            label: b.label.map(|l| l.name.ident.to_string()),
            stmts: b.block.stmts.iter().map(|s| s.to_token_stream().to_string()).collect(),
        },
        Ok(Expr::Unary(ExprUnary { op: syn::UnOp::Neg(_), expr, .. })) =>
            ExprShape::Neg(expr.to_token_stream().to_string()),
        _ => ExprShape::Other,
    }
}

} // verus!
