//! The declaration language of systems: a stage name, a query function with
//! the components it views, filter clauses, and a body, as in
//!
//! `DestroySystem { query! { fn destroy() All=[Entity, Destroyed] Remove=[Entity, Destroyed] { } } }`
//!
//! read from its tokens.
use vstd::prelude::*;

verus! {

/// The delimiter of a group of tokens.
#[derive(Clone, Copy, Debug, PartialEq, Eq, Structural)]
pub enum Delim {
    Paren,
    Bracket,
    Brace,
}

/// A token: an identifier (or keyword), a punctuation character, a literal,
/// or the opening or closing delimiter of a group.
#[derive(Debug, PartialEq, Eq)]
pub enum Token {
    Ident(Vec<u8>),
    Punct(u8),
    Literal(Vec<u8>),
    Open(Delim),
    Close(Delim),
}

/// A token as a value.
pub enum Tok {
    Ident(Seq<u8>),
    Punct(u8),
    Literal(Seq<u8>),
    Open(Delim),
    Close(Delim),
}

impl Token {
    pub open spec fn tok(&self) -> Tok {
        match self {
            Token::Ident(v) => Tok::Ident(v@),
            Token::Punct(c) => Tok::Punct(*c),
            Token::Literal(v) => Tok::Literal(v@),
            Token::Open(d) => Tok::Open(*d),
            Token::Close(d) => Tok::Close(*d),
        }
    }
}

/// The tokens of a vector, as values.
pub open spec fn toks(v: Seq<Token>) -> Seq<Tok> {
    v.map_values(|t: Token| t.tok())
}

/// Byte values of the punctuation the language uses.
pub const COLON: u8 = 58;
pub const COMMA: u8 = 44;
pub const LT: u8 = 60;
pub const GT: u8 = 62;
pub const BANG: u8 = 33;
pub const STAR: u8 = 42;
pub const EQ: u8 = 61;

/// The identifiers of a path as values.
pub open spec fn words(v: Seq<Vec<u8>>) -> Seq<Seq<u8>> {
    v.map_values(|w: Vec<u8>| w@)
}

/// A path `a::b::c`.
pub open spec fn render_path(p: Seq<Seq<u8>>) -> Seq<Tok>
    decreases p.len(),
{
    if p.len() == 0 {
        Seq::empty()
    } else if p.len() == 1 {
        seq![Tok::Ident(p[0])]
    } else {
        render_path(p.drop_last()) + seq![Tok::Punct(COLON), Tok::Punct(COLON), Tok::Ident(p.last())]
    }
}

/// Whether `t` holds `s` from position `pos` on.
pub open spec fn holds_at(t: Seq<Tok>, pos: int, s: Seq<Tok>) -> bool {
    0 <= pos && pos + s.len() <= t.len() && t.subrange(pos, pos + s.len()) == s
}

/// Whether the token at `pos`, if any, is not a colon: a path cannot go on there.
pub open spec fn path_ends_at(t: Seq<Tok>, pos: int) -> bool {
    pos == t.len() || t[pos] != Tok::Punct(COLON)
}

proof fn lemma_holds_at_index(t: Seq<Tok>, pos: int, s: Seq<Tok>, j: int)
    requires
        holds_at(t, pos, s),
        0 <= j < s.len(),
    ensures
        t[pos + j] == s[j],
{
    assert(t.subrange(pos, pos + s.len())[j] == t[pos + j]);
}

proof fn lemma_render_path_push(p: Seq<Seq<u8>>, w: Seq<u8>)
    requires
        p.len() >= 1,
    ensures
        render_path(p.push(w)) == render_path(p) + seq![Tok::Punct(COLON), Tok::Punct(COLON), Tok::Ident(w)],
{
    assert(p.push(w).drop_last() =~= p);
}

proof fn lemma_render_path_len(p: Seq<Seq<u8>>)
    ensures
        p.len() >= 1 ==> render_path(p).len() == 3 * p.len() - 2,
        p.len() >= 1 ==> render_path(p)[0] == Tok::Ident(p[0]),
    decreases p.len(),
{
    if p.len() > 1 {
        lemma_render_path_len(p.drop_last());
    }
}

/// The prefix of a path rendered is the render of the path's prefix.
proof fn lemma_render_path_prefix(p: Seq<Seq<u8>>, k: int)
    requires
        1 <= k <= p.len(),
    ensures
        render_path(p).len() == 3 * p.len() - 2,
        render_path(p.subrange(0, k)).len() == 3 * k - 2,
        render_path(p).subrange(0, render_path(p.subrange(0, k)).len() as int) == render_path(p.subrange(0, k)),
        k < p.len() ==> render_path(p)[render_path(p.subrange(0, k)).len() as int] == Tok::Punct(COLON),
        k < p.len() ==> render_path(p)[render_path(p.subrange(0, k)).len() as int + 1] == Tok::Punct(COLON),
        k < p.len() ==> render_path(p)[render_path(p.subrange(0, k)).len() as int + 2] == Tok::Ident(p[k]),
    decreases p.len(),
{
    lemma_render_path_len(p);
    lemma_render_path_len(p.subrange(0, k));
    if k == p.len() {
        assert(p.subrange(0, k) =~= p);
        assert(render_path(p).subrange(0, render_path(p).len() as int) =~= render_path(p));
    } else {
        let q = p.drop_last();
        assert(q.subrange(0, k) =~= p.subrange(0, k));
        lemma_render_path_prefix(q, k);
        lemma_render_path_len(q);
        if k == q.len() {
            assert(q =~= p.subrange(0, k));
        }
        assert(render_path(p) == render_path(q) + seq![Tok::Punct(COLON), Tok::Punct(COLON), Tok::Ident(p.last())]);
        let n = render_path(p.subrange(0, k)).len() as int;
        assert(render_path(p).subrange(0, n) =~= render_path(q).subrange(0, n));
    }
}

/// The identifier text of the token at `pos`, if it is an identifier.
fn ident_at(t: &Vec<Token>, pos: usize) -> (r: Option<Vec<u8>>)
    ensures
        t@.len() <= usize::MAX,
        match r {
            Some(w) => pos < t@.len() && toks(t@)[pos as int] == Tok::Ident(w@),
            None => pos >= t@.len() || !(toks(t@)[pos as int] is Ident),
        },
{
    if pos < t.len() {
        match &t[pos] {
            Token::Ident(w) => Some(w.clone()),
            _ => None,
        }
    } else {
        None
    }
}

/// Whether the token at `pos` is the punctuation `c`.
fn punct_at(t: &Vec<Token>, pos: usize, c: u8) -> (r: bool)
    ensures
        t@.len() <= usize::MAX,
        r == (pos < t@.len() && toks(t@)[pos as int] == Tok::Punct(c)),
{
    if pos < t.len() {
        match &t[pos] {
            Token::Punct(x) => *x == c,
            _ => false,
        }
    } else {
        false
    }
}

/// Reads a path `a::b::c` at `pos`. Returns its identifiers and the position
/// after it.
pub fn parse_path(t: &Vec<Token>, pos: usize) -> (r: Option<(Vec<Vec<u8>>, usize)>)
    ensures
        r matches Some((p, e)) ==> (p@.len() >= 1 && holds_at(toks(t@), pos as int, render_path(words(p@)))
            && e == pos + render_path(words(p@)).len() && path_ends_at(toks(t@), e as int)),
        forall|q: Seq<Seq<u8>>|
            q.len() >= 1 && #[trigger] holds_at(toks(t@), pos as int, render_path(q)) && path_ends_at(toks(t@), pos + render_path(q).len())
                ==> (r matches Some((p, e)) && words(p@) == q),
{
    let ghost tv = toks(t@);
    let first = match ident_at(t, pos) {
        Some(w) => w,
        None => {
            proof {
                assert forall|q: Seq<Seq<u8>>| q.len() >= 1 && #[trigger] holds_at(tv, pos as int, render_path(q)) implies false by {
                    lemma_render_path_len(q);
                    lemma_holds_at_index(tv, pos as int, render_path(q), 0);
                }
            }
            return None;
        },
    };
    let n = t.len();
    let mut segs: Vec<Vec<u8>> = Vec::new();
    segs.push(first);
    let mut p: usize = pos + 1;
    proof {
        assert(words(segs@) =~= seq![first@]);
        assert(tv.subrange(pos as int, pos + 1) =~= render_path(words(segs@)));
        assert forall|q: Seq<Seq<u8>>|
            q.len() >= 1 && #[trigger] holds_at(tv, pos as int, render_path(q)) implies words(segs@) == q.subrange(0, 1) by {
            lemma_render_path_len(q);
            assert(tv[pos as int] == tv.subrange(pos as int, pos + render_path(q).len())[0]);
            assert(words(segs@) =~= q.subrange(0, 1));
        }
    }
    while punct_at(t, p, COLON)
        invariant
            tv == toks(t@),
            n == t@.len(),
            tv.len() == n,
            p <= n,
            segs@.len() >= 1,
            holds_at(tv, pos as int, render_path(words(segs@))),
            p == pos + render_path(words(segs@)).len(),
            forall|q: Seq<Seq<u8>>|
                q.len() >= 1 && #[trigger] holds_at(tv, pos as int, render_path(q)) && path_ends_at(tv, pos + render_path(q).len())
                    ==> segs@.len() <= q.len() && words(segs@) == q.subrange(0, segs@.len() as int),
        decreases t@.len() - p,
    {
        proof {
            lemma_render_path_len(words(segs@));
        }
        if !punct_at(t, p + 1, COLON) {
            proof {
                assert forall|q: Seq<Seq<u8>>|
                    q.len() >= 1 && #[trigger] holds_at(tv, pos as int, render_path(q)) && path_ends_at(tv, pos + render_path(q).len()) implies false by {
                    lemma_render_path_prefix(q, segs@.len() as int);
                    if segs@.len() == q.len() {
                        assert(q.subrange(0, segs@.len() as int) =~= q);
                    } else {
                        let m = render_path(words(segs@)).len() as int;
                        lemma_holds_at_index(tv, pos as int, render_path(q), m + 1);
                    }
                }
            }
            return None;
        }
        let w = match ident_at(t, p + 2) {
            Some(w) => w,
            None => {
                proof {
                    assert forall|q: Seq<Seq<u8>>|
                        q.len() >= 1 && #[trigger] holds_at(tv, pos as int, render_path(q)) && path_ends_at(tv, pos + render_path(q).len()) implies false by {
                        lemma_render_path_prefix(q, segs@.len() as int);
                        if segs@.len() == q.len() {
                            assert(q.subrange(0, segs@.len() as int) =~= q);
                        } else {
                            let m = render_path(words(segs@)).len() as int;
                            lemma_holds_at_index(tv, pos as int, render_path(q), m + 2);
                        }
                    }
                }
                return None;
            },
        };
        let ghost old_segs = words(segs@);
        segs.push(w);
        proof {
            assert(words(segs@) =~= old_segs.push(w@));
            lemma_render_path_push(old_segs, w@);
            assert(tv.subrange(pos as int, p + 3) =~= tv.subrange(pos as int, p as int) + seq![Tok::Punct(COLON), Tok::Punct(COLON), Tok::Ident(w@)]);
            assert forall|q: Seq<Seq<u8>>|
                q.len() >= 1 && #[trigger] holds_at(tv, pos as int, render_path(q)) && path_ends_at(tv, pos + render_path(q).len())
                    implies segs@.len() <= q.len() && words(segs@) == q.subrange(0, segs@.len() as int) by {
                let k = old_segs.len() as int;
                lemma_render_path_prefix(q, k);
                if k == q.len() {
                    assert(q.subrange(0, k) =~= q);
                    assert(false);
                }
                let m = render_path(old_segs).len() as int;
                lemma_holds_at_index(tv, pos as int, render_path(q), m + 2);
                assert(words(segs@) =~= q.subrange(0, k + 1));
            }
        }
        p = p + 3;
    }
    proof {
        assert forall|q: Seq<Seq<u8>>|
            q.len() >= 1 && #[trigger] holds_at(tv, pos as int, render_path(q)) && path_ends_at(tv, pos + render_path(q).len())
                implies words(segs@) == q by {
            let k = segs@.len() as int;
            lemma_render_path_prefix(q, k);
            if k < q.len() {
                let m = render_path(words(segs@)).len() as int;
                lemma_holds_at_index(tv, pos as int, render_path(q), m);
            } else {
                assert(q.subrange(0, k) =~= q);
            }
        }
    }
    Some((segs, p))
}

/// Items, each followed by a comma.
pub open spec fn render_sep<A>(xs: Seq<A>, f: spec_fn(A) -> Seq<Tok>) -> Seq<Tok>
    decreases xs.len(),
{
    if xs.len() == 0 {
        Seq::empty()
    } else {
        render_sep(xs.drop_last(), f) + f(xs.last()) + seq![Tok::Punct(COMMA)]
    }
}

/// Items in delimiters `d`, separated by commas, with a comma after the last
/// one when `trailing`.
pub open spec fn render_delimited<A>(d: Delim, xs: Seq<A>, f: spec_fn(A) -> Seq<Tok>, trailing: bool) -> Seq<Tok> {
    let items = render_sep(xs, f);
    seq![Tok::Open(d)] + (if trailing || xs.len() == 0 { items } else { items.drop_last() }) + seq![Tok::Close(d)]
}

/// Whether a delimited list is well-formed: a trailing comma needs an item.
pub open spec fn list_ok<A>(xs: Seq<A>, trailing: bool) -> bool {
    !(trailing && xs.len() == 0)
}

proof fn lemma_render_sep_step<A>(xs: Seq<A>, f: spec_fn(A) -> Seq<Tok>, k: int)
    requires
        0 <= k < xs.len(),
    ensures
        render_sep(xs.subrange(0, k + 1), f) == render_sep(xs.subrange(0, k), f) + f(xs[k]) + seq![Tok::Punct(COMMA)],
{
    assert(xs.subrange(0, k + 1).drop_last() =~= xs.subrange(0, k));
}

/// The rendering of the first `k` items is a prefix of that of all of them.
proof fn lemma_render_sep_prefix<A>(xs: Seq<A>, f: spec_fn(A) -> Seq<Tok>, k: int)
    requires
        0 <= k <= xs.len(),
    ensures
        render_sep(xs.subrange(0, k), f).len() <= render_sep(xs, f).len(),
        render_sep(xs, f).subrange(0, render_sep(xs.subrange(0, k), f).len() as int) == render_sep(xs.subrange(0, k), f),
    decreases xs.len(),
{
    if k == xs.len() {
        assert(xs.subrange(0, k) =~= xs);
        assert(render_sep(xs, f).subrange(0, render_sep(xs, f).len() as int) =~= render_sep(xs, f));
    } else {
        let ys = xs.drop_last();
        assert(ys.subrange(0, k) =~= xs.subrange(0, k));
        lemma_render_sep_prefix(ys, f, k);
        let n = render_sep(xs.subrange(0, k), f).len() as int;
        assert(render_sep(xs, f).subrange(0, n) =~= render_sep(ys, f).subrange(0, n));
    }
}

proof fn lemma_holds_at_concat(t: Seq<Tok>, pos: int, a: Seq<Tok>, b: Seq<Tok>)
    ensures
        holds_at(t, pos, a + b) == (holds_at(t, pos, a) && holds_at(t, pos + a.len(), b)),
{
    if holds_at(t, pos, a + b) {
        let w = t.subrange(pos, pos + a.len() + b.len());
        assert(w == a + b);
        assert forall|j: int| 0 <= j < a.len() implies t.subrange(pos, pos + a.len())[j] == a[j] by {
            assert(w[j] == t[pos + j]);
            assert((a + b)[j] == a[j]);
        }
        assert(t.subrange(pos, pos + a.len()) =~= a);
        assert forall|j: int| 0 <= j < b.len() implies t.subrange(pos + a.len(), pos + a.len() + b.len())[j] == b[j] by {
            assert(w[a.len() + j] == t[pos + a.len() + j]);
            assert((a + b)[a.len() + j] == b[j]);
        }
        assert(t.subrange(pos + a.len(), pos + a.len() + b.len()) =~= b);
    }
    if holds_at(t, pos, a) && holds_at(t, pos + a.len(), b) {
        assert forall|j: int| 0 <= j < a.len() + b.len() implies t.subrange(pos, pos + (a + b).len())[j] == (a + b)[j] by {
            if j < a.len() {
                assert(t.subrange(pos, pos + a.len())[j] == t[pos + j]);
            } else {
                assert(t.subrange(pos + a.len(), pos + a.len() + b.len())[j - a.len()] == t[pos + j]);
            }
        }
        assert(t.subrange(pos, pos + (a + b).len()) =~= a + b);
    }
}

/// What a delimited list holds at the place where its first `k` items end.
proof fn lemma_list_at<A>(t: Seq<Tok>, pos: int, xs: Seq<A>, f: spec_fn(A) -> Seq<Tok>, tr: bool, k: int, d: Delim)
    requires
        holds_at(t, pos, render_delimited(d, xs, f, tr)),
        list_ok(xs, tr),
        0 <= k <= xs.len(),
        k < xs.len() || tr || xs.len() == 0,
    ensures
        ({
            let p = pos + 1 + render_sep(xs.subrange(0, k), f).len();
            &&& k == xs.len() ==> p < t.len() && t[p] == Tok::Close(d)
            &&& k < xs.len() ==> holds_at(t, p, f(xs[k]))
            &&& k < xs.len() && (k + 1 < xs.len() || tr) ==> p + f(xs[k]).len() < t.len() && t[p + f(xs[k]).len()] == Tok::Punct(COMMA)
            &&& k < xs.len() && !(k + 1 < xs.len() || tr) ==> p + f(xs[k]).len() < t.len() && t[p + f(xs[k]).len()] == Tok::Close(d)
        }),
{
    let whole = render_sep(xs, f);
    let body = if tr || xs.len() == 0 { whole } else { whole.drop_last() };
    let p = pos + 1 + render_sep(xs.subrange(0, k), f).len();
    lemma_holds_at_concat(t, pos, seq![Tok::Open(d)] + body, seq![Tok::Close(d)]);
    lemma_holds_at_concat(t, pos, seq![Tok::Open(d)], body);
    if k == xs.len() {
        assert(xs.subrange(0, k) =~= xs);
        lemma_holds_at_index(t, pos + 1 + body.len(), seq![Tok::Close(d)], 0);
    } else {
        lemma_render_sep_step(xs, f, k);
        lemma_render_sep_prefix(xs, f, k + 1);
        let pre = render_sep(xs.subrange(0, k), f);
        let item = f(xs[k]);
        let upto = render_sep(xs.subrange(0, k + 1), f);
        assert(upto == pre + item + seq![Tok::Punct(COMMA)]);
        if tr || k + 1 < xs.len() {
            if k + 1 < xs.len() {
                lemma_render_sep_prefix(xs, f, k + 1);
                assert(whole.subrange(0, upto.len() as int) == upto);
                if !tr {
                    assert(xs.len() > k + 1);
                    lemma_render_sep_step(xs, f, xs.len() - 1);
                    lemma_render_sep_prefix(xs, f, xs.len() - 1);
                    assert(xs.subrange(0, xs.len() as int) =~= xs);
                    assert(render_sep(xs.subrange(0, xs.len() - 1), f).len() >= upto.len()) by {
                        lemma_render_sep_prefix(xs.subrange(0, xs.len() - 1), f, k + 1);
                        assert(xs.subrange(0, xs.len() - 1).subrange(0, k + 1) =~= xs.subrange(0, k + 1));
                    }
                }
            } else {
                assert(xs.subrange(0, k + 1) =~= xs);
            }
            assert(body.subrange(0, upto.len() as int) =~= upto);
            lemma_holds_at_concat(t, pos + 1, upto, body.subrange(upto.len() as int, body.len() as int));
            assert(body =~= upto + body.subrange(upto.len() as int, body.len() as int));
            lemma_holds_at_concat(t, pos + 1, pre, item + seq![Tok::Punct(COMMA)]);
            assert(pre + (item + seq![Tok::Punct(COMMA)]) =~= upto);
            lemma_holds_at_concat(t, p, item, seq![Tok::Punct(COMMA)]);
            lemma_holds_at_index(t, p + item.len(), seq![Tok::Punct(COMMA)], 0);
        } else {
            assert(xs.subrange(0, k + 1) =~= xs);
            assert(body =~= pre + item);
            lemma_holds_at_concat(t, pos + 1, pre, item);
            lemma_holds_at_index(t, pos + 1 + body.len(), seq![Tok::Close(d)], 0);
        }
    }
}

/// Whether the token at `pos` is the delimiter `d`, opening or closing.
fn delim_at(t: &Vec<Token>, pos: usize, open: bool, d: Delim) -> (r: bool)
    ensures
        r == (pos < t@.len() && toks(t@)[pos as int] == if open { Tok::Open(d) } else { Tok::Close(d) }),
{
    if pos < t.len() {
        match &t[pos] {
            Token::Open(x) => open && *x == d,
            Token::Close(x) => !open && *x == d,
            _ => false,
        }
    } else {
        false
    }
}

/// Reads a bracketed list of types `[a::B, C<D>]` at `pos`. Returns the
/// types, whether a comma follows the last one, and the position after the
/// list.
pub fn parse_type_list(t: &Vec<Token>, pos: usize) -> (r: Option<(Vec<Vec<Token>>, bool, usize)>)
    ensures
        r matches Some((ps, trailing, e)) ==> ({
            let xs = ps@.map_values(|p: Vec<Token>| toks(p@));
            &&& list_ok(xs, trailing)
            &&& forall|i: int| 0 <= i < xs.len() ==> type_ok(#[trigger] xs[i])
            &&& holds_at(toks(t@), pos as int, render_delimited(Delim::Bracket, xs, type_render(), trailing))
            &&& e == pos + render_delimited(Delim::Bracket, xs, type_render(), trailing).len()
        }),
        forall|xs: Seq<Seq<Tok>>, trailing: bool|
            list_ok(xs, trailing) && (forall|i: int| 0 <= i < xs.len() ==> type_ok(#[trigger] xs[i]))
                && #[trigger] holds_at(toks(t@), pos as int, render_delimited(Delim::Bracket, xs, type_render(), trailing))
                ==> (r matches Some((ps, tr, e)) && ps@.map_values(|p: Vec<Token>| toks(p@)) == xs && tr == trailing),
{
    let ghost tv = toks(t@);
    let ghost f = type_render();
    if !delim_at(t, pos, true, Delim::Bracket) {
        proof {
            assert forall|xs: Seq<Seq<Tok>>, trailing: bool|
                list_ok(xs, trailing) && (forall|i: int| 0 <= i < xs.len() ==> type_ok(#[trigger] xs[i]))
                    && #[trigger] holds_at(tv, pos as int, render_delimited(Delim::Bracket, xs, f, trailing)) implies false by {
                lemma_holds_at_index(tv, pos as int, render_delimited(Delim::Bracket, xs, f, trailing), 0);
            }
        }
        return None;
    }
    let n = t.len();
    let mut ps: Vec<Vec<Token>> = Vec::new();
    let mut p: usize = pos + 1;
    proof {
        assert(ps@.map_values(|q: Vec<Token>| toks(q@)) =~= Seq::<Seq<Tok>>::empty());
        assert forall|xs: Seq<Seq<Tok>>, trailing: bool|
            list_ok(xs, trailing) && (forall|i: int| 0 <= i < xs.len() ==> type_ok(#[trigger] xs[i]))
                && #[trigger] holds_at(tv, pos as int, render_delimited(Delim::Bracket, xs, f, trailing))
                implies ps@.map_values(|q: Vec<Token>| toks(q@)) == xs.subrange(0, 0) by {
            assert(xs.subrange(0, 0) =~= Seq::<Seq<Tok>>::empty());
        }
        assert(tv.subrange(pos as int, pos + 1) =~= seq![Tok::Open(Delim::Bracket)] + render_sep(Seq::<Seq<Tok>>::empty(), f));
    }
    loop
        invariant
            tv == toks(t@),
            f == type_render(),
            n == t@.len(),
            p <= n,
            ({
                let done = ps@.map_values(|q: Vec<Token>| toks(q@));
                &&& forall|i: int| 0 <= i < done.len() ==> type_ok(#[trigger] done[i])
                &&& holds_at(tv, pos as int, seq![Tok::Open(Delim::Bracket)] + render_sep(done, f))
                &&& p == pos + 1 + render_sep(done, f).len()
                &&& forall|xs: Seq<Seq<Tok>>, trailing: bool|
                    list_ok(xs, trailing) && (forall|i: int| 0 <= i < xs.len() ==> type_ok(#[trigger] xs[i]))
                        && #[trigger] holds_at(tv, pos as int, render_delimited(Delim::Bracket, xs, f, trailing))
                        ==> done.len() <= xs.len() && done == xs.subrange(0, done.len() as int)
                            && (done.len() < xs.len() || trailing || xs.len() == 0)
            }),
        decreases n - p,
    {
        let ghost done = ps@.map_values(|q: Vec<Token>| toks(q@));
        if delim_at(t, p, false, Delim::Bracket) {
            let trailing = ps.len() > 0;
            proof {
                let xs = done;
                let body = render_sep(xs, f);
                lemma_holds_at_concat(tv, pos as int, seq![Tok::Open(Delim::Bracket)] + body, seq![Tok::Close(Delim::Bracket)]);
                assert(tv.subrange(p as int, p + 1) =~= seq![Tok::Close(Delim::Bracket)]);
                assert(render_delimited(Delim::Bracket, xs, f, trailing) =~= seq![Tok::Open(Delim::Bracket)] + body + seq![Tok::Close(Delim::Bracket)]);
                assert forall|ys: Seq<Seq<Tok>>, tr: bool|
                    list_ok(ys, tr) && (forall|i: int| 0 <= i < ys.len() ==> type_ok(#[trigger] ys[i]))
                        && #[trigger] holds_at(tv, pos as int, render_delimited(Delim::Bracket, ys, f, tr))
                        implies done == ys && tr == trailing by {
                    let k = done.len() as int;
                    if k < ys.len() {
                        lemma_list_at(tv, pos as int, ys, f, tr, k, Delim::Bracket);
                        lemma_holds_at_index(tv, p as int, f(ys[k]), 0);
                        assert(false);
                    }
                    assert(ys.subrange(0, k) =~= ys);
                }
            }
            return Some((ps, trailing, p + 1));
        }
        let (path, e) = match parse_type(t, p) {
            Some(x) => x,
            None => {
                proof {
                    assert forall|ys: Seq<Seq<Tok>>, tr: bool|
                        list_ok(ys, tr) && (forall|i: int| 0 <= i < ys.len() ==> type_ok(#[trigger] ys[i]))
                            && #[trigger] holds_at(tv, pos as int, render_delimited(Delim::Bracket, ys, f, tr))
                            implies false by {
                        let k = done.len() as int;
                        lemma_list_at(tv, pos as int, ys, f, tr, k, Delim::Bracket);
                        if k == ys.len() {
                        } else {
                            assert(holds_at(tv, p as int, ys[k]));
                        }
                    }
                }
                return None;
            },
        };
        let ghost x = toks(path@);
        let ghost done2 = done.push(x);
        proof {
            lemma_render_sep_step(done2, f, done.len() as int);
            assert(done2.subrange(0, done.len() as int) =~= done);
            assert(done2.subrange(0, done.len() as int + 1) =~= done2);
            lemma_holds_at_concat(tv, pos as int, seq![Tok::Open(Delim::Bracket)] + render_sep(done, f), x);
            assert(seq![Tok::Open(Delim::Bracket)] + render_sep(done, f) + x =~= seq![Tok::Open(Delim::Bracket)] + (render_sep(done, f) + f(x)));
            assert forall|ys: Seq<Seq<Tok>>, tr: bool|
                list_ok(ys, tr) && (forall|i: int| 0 <= i < ys.len() ==> type_ok(#[trigger] ys[i]))
                    && #[trigger] holds_at(tv, pos as int, render_delimited(Delim::Bracket, ys, f, tr))
                    implies done.len() < ys.len() && ys[done.len() as int] == x by {
                let k = done.len() as int;
                lemma_list_at(tv, pos as int, ys, f, tr, k, Delim::Bracket);
                if k == ys.len() {
                    assert(tv[p as int] == Tok::Close(Delim::Bracket));
                    lemma_holds_at_index(tv, p as int, x, 0);
                } else {
                    assert(holds_at(tv, p as int, ys[k]));
                }
            }
        }
        if punct_at(t, e, COMMA) {
            ps.push(path);
            proof {
                let d2 = ps@.map_values(|q: Vec<Token>| toks(q@));
                assert(d2 =~= done2);
                assert(tv.subrange(e as int, e + 1) =~= seq![Tok::Punct(COMMA)]);
                lemma_holds_at_concat(tv, pos as int, seq![Tok::Open(Delim::Bracket)] + render_sep(done, f) + x, seq![Tok::Punct(COMMA)]);
                assert(seq![Tok::Open(Delim::Bracket)] + render_sep(done2, f) =~= seq![Tok::Open(Delim::Bracket)] + render_sep(done, f) + x + seq![Tok::Punct(COMMA)]);
                assert forall|ys: Seq<Seq<Tok>>, tr: bool|
                    list_ok(ys, tr) && (forall|i: int| 0 <= i < ys.len() ==> type_ok(#[trigger] ys[i]))
                        && #[trigger] holds_at(tv, pos as int, render_delimited(Delim::Bracket, ys, f, tr))
                        implies d2.len() <= ys.len() && d2 == ys.subrange(0, d2.len() as int)
                            && (d2.len() < ys.len() || tr || ys.len() == 0) by {
                    let k = done.len() as int;
                    lemma_list_at(tv, pos as int, ys, f, tr, k, Delim::Bracket);
                    assert(d2 =~= ys.subrange(0, k + 1));
                    if k + 1 == ys.len() && !tr {
                        assert(tv[e as int] == Tok::Close(Delim::Bracket));
                    }
                }
                assert forall|i: int| 0 <= i < d2.len() implies type_ok(#[trigger] d2[i]) by {
                    if i < done.len() {
                        assert(d2[i] == done[i]);
                    }
                }
            }
            p = e + 1;
        } else if delim_at(t, e, false, Delim::Bracket) {
            ps.push(path);
            proof {
                let d2 = ps@.map_values(|q: Vec<Token>| toks(q@));
                assert(d2 =~= done2);
                assert(render_sep(done2, f).drop_last() =~= render_sep(done, f) + f(x));
                assert(render_delimited(Delim::Bracket, d2, f, false) =~= seq![Tok::Open(Delim::Bracket)] + render_sep(done, f) + x + seq![Tok::Close(Delim::Bracket)]);
                assert(tv.subrange(e as int, e + 1) =~= seq![Tok::Close(Delim::Bracket)]);
                lemma_holds_at_concat(tv, pos as int, seq![Tok::Open(Delim::Bracket)] + render_sep(done, f) + x, seq![Tok::Close(Delim::Bracket)]);
                assert forall|ys: Seq<Seq<Tok>>, tr: bool|
                    list_ok(ys, tr) && (forall|i: int| 0 <= i < ys.len() ==> type_ok(#[trigger] ys[i]))
                        && #[trigger] holds_at(tv, pos as int, render_delimited(Delim::Bracket, ys, f, tr))
                        implies d2 == ys && !tr by {
                    let k = done.len() as int;
                    lemma_list_at(tv, pos as int, ys, f, tr, k, Delim::Bracket);
                    if k + 1 < ys.len() || tr {
                        assert(tv[e as int] == Tok::Punct(COMMA));
                    }
                    assert(d2 =~= ys);
                }
                assert forall|i: int| 0 <= i < d2.len() implies type_ok(#[trigger] d2[i]) by {
                    if i < done.len() {
                        assert(d2[i] == done[i]);
                    }
                }
            }
            return Some((ps, false, e + 1));
        } else {
            proof {
                assert forall|ys: Seq<Seq<Tok>>, tr: bool|
                    list_ok(ys, tr) && (forall|i: int| 0 <= i < ys.len() ==> type_ok(#[trigger] ys[i]))
                        && #[trigger] holds_at(tv, pos as int, render_delimited(Delim::Bracket, ys, f, tr))
                        implies false by {
                    let k = done.len() as int;
                    lemma_list_at(tv, pos as int, ys, f, tr, k, Delim::Bracket);
                }
            }
            return None;
        }
    }
}

/// Change in nesting a token makes among angle brackets and groups.
pub open spec fn gstep(x: Tok) -> int {
    match x {
        Tok::Open(_) => 1int,
        Tok::Close(_) => -1int,
        Tok::Punct(c) => if c == LT { 1int } else if c == GT { -1int } else { 0int },
        _ => 0int,
    }
}

/// Number of angle brackets and groups a token sequence leaves open.
pub open spec fn gdepth(s: Seq<Tok>) -> int
    decreases s.len(),
{
    if s.len() == 0 {
        0
    } else {
        gdepth(s.drop_last()) + gstep(s.last())
    }
}

/// Every angle bracket or group the sequence opens it closes, and it closes
/// none it did not open.
pub open spec fn gbalanced(s: Seq<Tok>) -> bool {
    &&& forall|k: int| 0 <= k <= s.len() ==> gdepth(#[trigger] s.subrange(0, k)) >= 0
    &&& gdepth(s) == 0
}

/// Generic arguments `< .. >` around the tokens `g`.
pub open spec fn render_generics(g: Seq<Tok>) -> Seq<Tok> {
    seq![Tok::Punct(LT)] + g + seq![Tok::Punct(GT)]
}

/// A type: its angle brackets and groups balance, no comma stands outside
/// them, and it begins as a type does.
pub open spec fn type_ok(ty: Seq<Tok>) -> bool {
    gbalanced(ty) && top_comma_free(ty) && type_start(ty) && colons_paired(ty)
}

/// A type, as its own tokens.
pub open spec fn type_render() -> spec_fn(Seq<Tok>) -> Seq<Tok> {
    |ty: Seq<Tok>| ty
}

/// A type in a bracketed list ends at `q`: a comma or the closing bracket.
pub open spec fn type_ends_at(tv: Seq<Tok>, q: int) -> bool {
    0 <= q < tv.len() && (tv[q] == Tok::Punct(COMMA) || tv[q] == Tok::Close(Delim::Bracket))
}

/// Reads a type of a bracketed list at `pos`: the tokens up to the comma or
/// closing bracket outside all angle brackets and groups. Returns them and
/// the position of that comma or bracket.
#[verifier::spinoff_prover]
#[verifier::rlimit(40)]
pub fn parse_type(t: &Vec<Token>, pos: usize) -> (r: Option<(Vec<Token>, usize)>)
    ensures
        r matches Some((c, e)) ==> (type_ok(toks(c@)) && holds_at(toks(t@), pos as int, toks(c@))
            && e == pos + c@.len() && type_ends_at(toks(t@), e as int)),
        forall|ty: Seq<Tok>| type_ok(ty) && #[trigger] holds_at(toks(t@), pos as int, ty) && type_ends_at(toks(t@), pos + ty.len())
            ==> (r matches Some((c, e)) && toks(c@) == ty),
{
    let ghost tv = toks(t@);
    let n = t.len();
    if pos > n {
        return None;
    }
    let mut body: Vec<Token> = Vec::new();
    let mut level: usize = 0;
    let mut p: usize = pos;
    proof {
        assert(toks(body@) =~= Seq::<Tok>::empty());
        assert(tv.subrange(pos as int, pos as int) =~= toks(body@));
        assert forall|k: int| 0 <= k <= toks(body@).len() implies gdepth(#[trigger] toks(body@).subrange(0, k)) >= 0 by {
            assert(toks(body@).subrange(0, k) =~= Seq::<Tok>::empty());
        }
    }
    loop
        invariant
            tv == toks(t@),
            n == t@.len(),
            pos <= p,
            p == pos + body@.len(),
            holds_at(tv, pos as int, toks(body@)),
            p <= n,
            level == gdepth(toks(body@)),
            level <= body@.len(),
            forall|k: int| 0 <= k <= toks(body@).len() ==> gdepth(#[trigger] toks(body@).subrange(0, k)) >= 0,
            top_comma_free(toks(body@)),
            forall|ty: Seq<Tok>| type_ok(ty) && #[trigger] holds_at(tv, pos as int, ty) && type_ends_at(tv, pos + ty.len())
                ==> body@.len() <= ty.len() && toks(body@) == ty.subrange(0, body@.len() as int),
        decreases n - p,
    {
        let ghost cur = toks(body@);
        if p >= n {
            proof {
                assert forall|ty: Seq<Tok>| type_ok(ty) && #[trigger] holds_at(tv, pos as int, ty) && type_ends_at(tv, pos + ty.len())
                    implies false by {}
            }
            return None;
        }
        let tok = &t[p];
        let ghost x = tok.tok();
        let ghost next = cur.push(x);
        assert(next.drop_last() =~= cur);
        assert(cur.subrange(0, cur.len() as int) =~= cur);
        assert(gdepth(next) == gdepth(cur) + gstep(x));
        assert(tv[p as int] == x);
        let closing = match tok {
            Token::Close(_) => true,
            Token::Punct(c) => *c == GT,
            _ => false,
        };
        let is_comma = match tok {
            Token::Punct(c) => *c == COMMA,
            _ => false,
        };
        let opening = match tok {
            Token::Open(_) => true,
            Token::Punct(c) => *c == LT,
            _ => false,
        };
        assert(closing ==> gstep(x) == -1);
        assert(opening ==> gstep(x) == 1);
        assert(!closing && !opening ==> gstep(x) == 0);
        if level == 0 && (closing || is_comma) {
            let ends = is_comma || match tok {
                Token::Close(d) => *d == Delim::Bracket,
                _ => false,
            };
            proof {
                assert forall|ty: Seq<Tok>| type_ok(ty) && #[trigger] holds_at(tv, pos as int, ty) && type_ends_at(tv, pos + ty.len())
                    implies cur.len() == ty.len() by {
                    if cur.len() < ty.len() {
                        assert(ty[cur.len() as int] == tv[p as int]) by {
                            assert(ty[cur.len() as int] == tv.subrange(pos as int, pos + ty.len())[cur.len() as int]);
                        }
                        assert(ty.subrange(0, cur.len() as int) =~= cur);
                        if closing {
                            assert(ty.subrange(0, cur.len() as int + 1) =~= next);
                            assert(gdepth(ty.subrange(0, cur.len() as int + 1)) >= 0);
                        } else {
                            assert(gdepth(ty.subrange(0, cur.len() as int)) > 0);
                        }
                    }
                }
            }
            if !ends || !type_start_exec(&body) {
                proof {
                    assert forall|ty: Seq<Tok>| type_ok(ty) && #[trigger] holds_at(tv, pos as int, ty) && type_ends_at(tv, pos + ty.len())
                        implies false by {
                        assert(cur.len() == ty.len());
                        assert(ty.subrange(0, ty.len() as int) =~= ty);
                    }
                }
                return None;
            }
            proof {
                assert(gbalanced(cur));
                assert forall|ty: Seq<Tok>| type_ok(ty) && #[trigger] holds_at(tv, pos as int, ty) && type_ends_at(tv, pos + ty.len())
                    implies cur == ty by {
                    assert(ty.subrange(0, ty.len() as int) =~= ty);
                }
            }
            return Some((body, p));
        }
        if closing {
            level = level - 1;
        } else if opening {
            level = level + 1;
        }
        body.push(copy_token(tok));
        proof {
            assert(toks(body@) =~= next);
            assert(tv.subrange(pos as int, p + 1) =~= next) by {
                assert forall|j: int| 0 <= j < next.len() implies tv.subrange(pos as int, p + 1)[j] == next[j] by {
                    if j < cur.len() {
                        assert(tv.subrange(pos as int, p as int)[j] == cur[j]);
                    }
                }
            }
            assert forall|k: int| 0 <= k <= next.len() implies gdepth(#[trigger] next.subrange(0, k)) >= 0 by {
                if k <= cur.len() {
                    assert(next.subrange(0, k) =~= cur.subrange(0, k));
                } else {
                    assert(next.subrange(0, k) =~= next);
                }
            }
            assert forall|j: int| 0 <= j < next.len() && next[j] == Tok::Punct(COMMA) implies gdepth(#[trigger] next.subrange(0, j)) > 0 by {
                if j < cur.len() {
                    assert(next.subrange(0, j) =~= cur.subrange(0, j));
                } else {
                    assert(next.subrange(0, j) =~= cur);
                }
            }
            assert forall|ty: Seq<Tok>| type_ok(ty) && #[trigger] holds_at(tv, pos as int, ty) && type_ends_at(tv, pos + ty.len())
                implies next.len() <= ty.len() && next == ty.subrange(0, next.len() as int) by {
                if cur.len() == ty.len() {
                    assert(ty.subrange(0, ty.len() as int) =~= ty);
                    assert(gdepth(ty) == 0);
                }
                assert(ty[cur.len() as int] == tv[p as int]) by {
                    assert(ty[cur.len() as int] == tv.subrange(pos as int, pos + ty.len())[cur.len() as int]);
                }
                assert(next =~= ty.subrange(0, cur.len() as int + 1));
            }
        }
        p = p + 1;
    }
}

/// Reads generic arguments `< .. >` at `pos`. Returns the tokens inside and
/// the position after the closing `>`.
pub fn parse_generics(t: &Vec<Token>, pos: usize) -> (r: Option<(Vec<Token>, usize)>)
    ensures
        r matches Some((g, e)) ==> (gbalanced(toks(g@)) && holds_at(toks(t@), pos as int, render_generics(toks(g@)))
            && e == pos + render_generics(toks(g@)).len()),
        forall|g: Seq<Tok>| gbalanced(g) && #[trigger] holds_at(toks(t@), pos as int, render_generics(g))
            ==> (r matches Some((c, e)) && toks(c@) == g),
{
    let ghost tv = toks(t@);
    if !punct_at(t, pos, LT) {
        proof {
            assert forall|g: Seq<Tok>| gbalanced(g) && #[trigger] holds_at(tv, pos as int, render_generics(g)) implies false by {
                lemma_holds_at_index(tv, pos as int, render_generics(g), 0);
            }
        }
        return None;
    }
    let n = t.len();
    let mut body: Vec<Token> = Vec::new();
    let mut level: usize = 1;
    let mut p: usize = pos + 1;
    proof {
        assert(toks(body@) =~= Seq::<Tok>::empty());
        assert(tv.subrange(pos as int, pos + 1) =~= seq![Tok::Punct(LT)] + toks(body@));
        assert forall|k: int| 0 <= k <= toks(body@).len() implies gdepth(#[trigger] toks(body@).subrange(0, k)) >= 0 by {
            assert(toks(body@).subrange(0, k) =~= Seq::<Tok>::empty());
        }
    }
    loop
        invariant
            tv == toks(t@),
            n == t@.len(),
            pos < p <= n,
            holds_at(tv, pos as int, seq![Tok::Punct(LT)] + toks(body@)),
            p == pos + 1 + body@.len(),
            level == 1 + gdepth(toks(body@)),
            level <= p,
            forall|k: int| 0 <= k <= toks(body@).len() ==> gdepth(#[trigger] toks(body@).subrange(0, k)) >= 0,
            forall|g: Seq<Tok>| gbalanced(g) && #[trigger] holds_at(tv, pos as int, render_generics(g))
                ==> body@.len() <= g.len() && toks(body@) == g.subrange(0, body@.len() as int),
        decreases n - p,
    {
        let ghost cur = toks(body@);
        proof {
            assert forall|g: Seq<Tok>| gbalanced(g) && #[trigger] holds_at(tv, pos as int, render_generics(g))
                implies p < n && (cur.len() == g.len() ==> tv[p as int] == Tok::Punct(GT))
                    && (cur.len() < g.len() ==> tv[p as int] == g[cur.len() as int]) by {
                lemma_holds_at_index(tv, pos as int, render_generics(g), p - pos);
            }
        }
        if p >= n {
            return None;
        }
        let tok = &t[p];
        let ghost x = tok.tok();
        let ghost next = cur.push(x);
        assert(next.drop_last() =~= cur);
        assert(cur.subrange(0, cur.len() as int) =~= cur);
        assert(gdepth(cur) >= 0);
        assert(gdepth(next) == gdepth(cur) + gstep(x));
        let closing = match tok {
            Token::Close(_) => true,
            Token::Punct(c) => *c == GT,
            _ => false,
        };
        let opening = match tok {
            Token::Open(_) => true,
            Token::Punct(c) => *c == LT,
            _ => false,
        };
        assert(closing ==> gstep(x) == -1);
        assert(opening ==> gstep(x) == 1);
        assert(!closing && !opening ==> gstep(x) == 0);
        if closing {
            if level == 1 {
                let is_gt = match tok {
                    Token::Punct(c) => *c == GT,
                    _ => false,
                };
                if is_gt {
                    proof {
                        assert(x == Tok::Punct(GT));
                        assert(gbalanced(cur));
                        assert(tv.subrange(p as int, p + 1) =~= seq![Tok::Punct(GT)]);
                        lemma_holds_at_concat(tv, pos as int, seq![Tok::Punct(LT)] + cur, seq![Tok::Punct(GT)]);
                        assert forall|g: Seq<Tok>| gbalanced(g) && #[trigger] holds_at(tv, pos as int, render_generics(g))
                            implies cur == g by {
                            if cur.len() < g.len() {
                                assert(gdepth(g.subrange(0, cur.len() as int + 1)) >= 0);
                                assert(g.subrange(0, cur.len() as int + 1) =~= next);
                            } else {
                                assert(g.subrange(0, g.len() as int) =~= g);
                            }
                        }
                    }
                    return Some((body, p + 1));
                } else {
                    proof {
                        assert forall|g: Seq<Tok>| gbalanced(g) && #[trigger] holds_at(tv, pos as int, render_generics(g))
                            implies false by {
                            if cur.len() < g.len() {
                                assert(gdepth(g.subrange(0, cur.len() as int + 1)) >= 0);
                                assert(g.subrange(0, cur.len() as int + 1) =~= next);
                            }
                        }
                    }
                    return None;
                }
            }
            level = level - 1;
        } else if opening {
            level = level + 1;
        }
        body.push(copy_token(tok));
        proof {
            assert(toks(body@) =~= next);
            assert(tv.subrange(p as int, p + 1) =~= seq![x]);
            lemma_holds_at_concat(tv, pos as int, seq![Tok::Punct(LT)] + cur, seq![x]);
            assert(seq![Tok::Punct(LT)] + cur + seq![x] =~= seq![Tok::Punct(LT)] + next);
            assert forall|k: int| 0 <= k <= next.len() implies gdepth(#[trigger] next.subrange(0, k)) >= 0 by {
                if k <= cur.len() {
                    assert(next.subrange(0, k) =~= cur.subrange(0, k));
                } else {
                    assert(next.subrange(0, k) =~= next);
                }
            }
            assert forall|g: Seq<Tok>| gbalanced(g) && #[trigger] holds_at(tv, pos as int, render_generics(g))
                implies next.len() <= g.len() && next == g.subrange(0, next.len() as int) by {
                if cur.len() == g.len() {
                    assert(g.subrange(0, g.len() as int) =~= g);
                    assert(x == Tok::Punct(GT));
                    assert(level == 1);
                }
                assert(next =~= g.subrange(0, cur.len() as int + 1));
            }
        }
        p = p + 1;
    }
}

/// The identifier `View`.
pub open spec fn word_view() -> Seq<u8> {
    seq![86u8, 105u8, 101u8, 119u8]
}

/// The identifier `ViewMut`.
pub open spec fn word_view_mut() -> Seq<u8> {
    seq![86u8, 105u8, 101u8, 119u8, 77u8, 117u8, 116u8]
}

/// A view argument of a system function, `name: [path::]View<C, ..>` or
/// `name: [path::]ViewMut<C, ..>`: `component` is the first generic
/// argument, the component type it views; `rest` is what follows it inside
/// the angle brackets (empty, or starting with a comma).
pub struct ArgSpec {
    pub name: Seq<u8>,
    pub prefix: Seq<Seq<u8>>,
    pub is_mut: bool,
    pub component: Seq<Tok>,
    pub rest: Seq<Tok>,
}

/// The path of the view type of an argument: its prefix, then `View` or `ViewMut`.
pub open spec fn view_path(a: ArgSpec) -> Seq<Seq<u8>> {
    a.prefix.push(if a.is_mut { word_view_mut() } else { word_view() })
}

pub open spec fn render_arg(a: ArgSpec) -> Seq<Tok> {
    seq![Tok::Ident(a.name), Tok::Punct(COLON)] + render_path(view_path(a)) + render_generics(a.component + a.rest)
}

pub open spec fn arg_render() -> spec_fn(ArgSpec) -> Seq<Tok> {
    |a: ArgSpec| render_arg(a)
}

/// No comma stands outside all angle brackets and groups of `c`.
pub open spec fn top_comma_free(c: Seq<Tok>) -> bool {
    forall|k: int| 0 <= k < c.len() && c[k] == Tok::Punct(COMMA) ==> gdepth(#[trigger] c.subrange(0, k)) > 0
}

/// The byte of `&`.
pub const AMP: u8 = 38;

/// Every colon of `c` is one of a pair `::`: a type holds no lone colon.
pub open spec fn colons_paired(c: Seq<Tok>) -> bool {
    forall|k: int| 0 <= k < c.len() && #[trigger] c[k] == Tok::Punct(COLON)
        ==> (k + 1 < c.len() && c[k + 1] == Tok::Punct(COLON)) || (k > 0 && c[k - 1] == Tok::Punct(COLON))
}

/// Tokens that begin a type: a path, a tuple or array, a reference, a raw
/// pointer, a qualified path `<T as Trait>::X`, or the never type (not a
/// lifetime or a literal).
pub open spec fn type_start(c: Seq<Tok>) -> bool {
    c.len() > 0 && (c[0] is Ident || c[0] == Tok::Open(Delim::Paren) || c[0] == Tok::Open(Delim::Bracket)
        || c[0] == Tok::Punct(AMP) || c[0] == Tok::Punct(STAR) || c[0] == Tok::Punct(LT)
        || c[0] == Tok::Punct(BANG))
}

/// A well-formed view argument: its generic arguments are balanced, and the
/// first of them is a type.
#[verifier::opaque]
pub open spec fn arg_ok(a: ArgSpec) -> bool {
    &&& gbalanced(a.component + a.rest)
    &&& gbalanced(a.component)
    &&& top_comma_free(a.component)
    &&& (a.rest.len() == 0 || a.rest[0] == Tok::Punct(COMMA))
    &&& type_start(a.component)
    &&& colons_paired(a.component)
}

/// A view argument of a system function.
pub struct ViewArg {
    pub name: Vec<u8>,
    pub prefix: Vec<Vec<u8>>,
    pub is_mut: bool,
    pub component: Vec<Token>,
    pub rest: Vec<Token>,
}

impl ViewArg {
    pub open spec fn spec(&self) -> ArgSpec {
        ArgSpec {
            name: self.name@,
            prefix: words(self.prefix@),
            is_mut: self.is_mut,
            component: toks(self.component@),
            rest: toks(self.rest@),
        }
    }
}

/// Why a declaration could not be read.
#[derive(Clone, Copy, Debug, PartialEq, Eq, Structural)]
pub enum ParseError {
    /// An identifier other than `query` stands before the query function.
    ExpectedQuery,
    /// A view argument's type is a path whose last identifier is neither
    /// `View` nor `ViewMut`.
    ExpectedView,
    /// A view argument's type is not `View<T, ..>` or `ViewMut<T, ..>`
    /// with a type `T`.
    ExpectedViewArgs,
    /// The tokens do not form a declaration in another way.
    Malformed,
}

/// Tokens at `pos` begin a view argument: an identifier and a colon.
pub open spec fn arg_head(tv: Seq<Tok>, pos: int) -> bool {
    0 <= pos && pos + 1 < tv.len() && tv[pos] is Ident && tv[pos + 1] == Tok::Punct(COLON)
}

/// A whole path `p` stands at `q`: no `::` continues it.
pub open spec fn path_at(tv: Seq<Tok>, q: int, p: Seq<Seq<u8>>) -> bool {
    p.len() >= 1 && holds_at(tv, q, render_path(p)) && path_ends_at(tv, q + render_path(p).len())
}

/// `View` or `ViewMut`.
pub open spec fn is_view_word(w: Seq<u8>) -> bool {
    w == word_view() || w == word_view_mut()
}

/// What the error `x` says of the tokens at `pos` where a view argument was
/// expected.
pub open spec fn arg_error(tv: Seq<Tok>, pos: int, x: ParseError) -> bool {
    match x {
        ParseError::Malformed => !arg_head(tv, pos),
        ParseError::ExpectedView => arg_head(tv, pos)
            && exists|p: Seq<Seq<u8>>| #[trigger] path_at(tv, pos + 2, p) && !is_view_word(p.last()),
        ParseError::ExpectedViewArgs => arg_head(tv, pos)
            && forall|p: Seq<Seq<u8>>| #[trigger] path_at(tv, pos + 2, p) ==> is_view_word(p.last()),
        ParseError::ExpectedQuery => false,
    }
}

/// A view argument fails at `q` for reason `x`: `x` describes the tokens
/// there and no well-formed view argument stands there.
pub open spec fn arg_fails(tv: Seq<Tok>, q: int, x: ParseError) -> bool {
    &&& arg_error(tv, q, x)
    &&& !exists|a: ArgSpec| arg_ok(a) && #[trigger] holds_at(tv, q, render_arg(a))
}

/// An argument list at `pos` opens with the well-formed arguments `done`,
/// each followed by a comma, and the next argument fails for reason `x`,
/// which names a view type.
pub open spec fn list_fails(tv: Seq<Tok>, pos: int, done: Seq<ArgSpec>, x: ParseError) -> bool {
    &&& x != ParseError::Malformed
    &&& forall|i: int| 0 <= i < done.len() ==> arg_ok(#[trigger] done[i])
    &&& holds_at(tv, pos, seq![Tok::Open(Delim::Paren)] + render_sep(done, arg_render()))
    &&& arg_fails(tv, pos + 1 + render_sep(done, arg_render()).len(), x)
}

/// At most one reason describes the tokens where a view argument was expected.
proof fn lemma_arg_error_unique(tv: Seq<Tok>, q: int, x: ParseError, y: ParseError)
    requires
        arg_error(tv, q, x),
        arg_error(tv, q, y),
    ensures
        x == y,
{
    if x == ParseError::ExpectedView && y == ParseError::ExpectedViewArgs {
        let p = choose|p: Seq<Seq<u8>>| #[trigger] path_at(tv, q + 2, p) && !is_view_word(p.last());
        assert(path_at(tv, q + 2, p));
    }
    if y == ParseError::ExpectedView && x == ParseError::ExpectedViewArgs {
        let p = choose|p: Seq<Seq<u8>>| #[trigger] path_at(tv, q + 2, p) && !is_view_word(p.last());
        assert(path_at(tv, q + 2, p));
    }
}

/// In a list of items each followed by a comma, item `k` stands after the
/// first `k` items, and a comma after it.
proof fn lemma_sep_at<A>(t: Seq<Tok>, pos: int, xs: Seq<A>, f: spec_fn(A) -> Seq<Tok>, k: int)
    requires
        holds_at(t, pos, seq![Tok::Open(Delim::Paren)] + render_sep(xs, f)),
        0 <= k < xs.len(),
    ensures
        ({
            let p = pos + 1 + render_sep(xs.subrange(0, k), f).len();
            &&& holds_at(t, p, f(xs[k]))
            &&& p + f(xs[k]).len() < t.len()
            &&& t[p + f(xs[k]).len()] == Tok::Punct(COMMA)
        }),
{
    let whole = render_sep(xs, f);
    let head = render_sep(xs.subrange(0, k), f);
    let pre = render_sep(xs.subrange(0, k + 1), f);
    lemma_render_sep_prefix(xs, f, k + 1);
    lemma_render_sep_step(xs, f, k);
    let rest = whole.subrange(pre.len() as int, whole.len() as int);
    let lead = seq![Tok::Open(Delim::Paren)];
    let item = f(xs[k]) + seq![Tok::Punct(COMMA)];
    assert(whole =~= pre + rest);
    assert(lead + whole =~= (lead + head) + item + rest);
    lemma_holds_at_concat(t, pos, (lead + head) + item, rest);
    lemma_holds_at_concat(t, pos, lead + head, item);
    let p = pos + 1 + head.len();
    lemma_holds_at_concat(t, p, f(xs[k]), seq![Tok::Punct(COMMA)]);
    lemma_holds_at_index(t, p + f(xs[k]).len(), seq![Tok::Punct(COMMA)], 0);
}

/// Splitting generic arguments after their first argument gives one answer.
proof fn lemma_first_arg_unique(c1: Seq<Tok>, r1: Seq<Tok>, c2: Seq<Tok>, r2: Seq<Tok>)
    requires
        c1 + r1 == c2 + r2,
        gbalanced(c1),
        gbalanced(c2),
        top_comma_free(c1),
        top_comma_free(c2),
        r1.len() == 0 || r1[0] == Tok::Punct(COMMA),
        r2.len() == 0 || r2[0] == Tok::Punct(COMMA),
    ensures
        c1 == c2,
        r1 == r2,
{
    let g = c1 + r1;
    if c1.len() < c2.len() {
        let k = c1.len() as int;
        assert(g[k] == r1[0]);
        assert(g[k] == (c2 + r2)[k]);
        assert forall|i: int| 0 <= i < k implies c2[i] == c1[i] by {
            assert(g[i] == c1[i]);
            assert((c2 + r2)[i] == c2[i]);
        }
        assert(c2.subrange(0, k) =~= c1);
        assert(c1.subrange(0, k) =~= c1);
        assert(gdepth(c2.subrange(0, k)) == gdepth(c1));
    } else if c2.len() < c1.len() {
        let k = c2.len() as int;
        assert(g[k] == (c2 + r2)[k]);
        assert(g[k] == c1[k]);
        assert forall|i: int| 0 <= i < k implies c2[i] == c1[i] by {
            assert(g[i] == c1[i]);
            assert((c2 + r2)[i] == c2[i]);
        }
        assert(c1.subrange(0, k) =~= c2);
        assert(c2.subrange(0, k) =~= c2);
        assert(gdepth(c1.subrange(0, k)) == gdepth(c2));
    }
    assert(c1 =~= g.subrange(0, c1.len() as int));
    assert(c2 =~= g.subrange(0, c2.len() as int));
    assert(r1 =~= g.subrange(c1.len() as int, g.len() as int));
    assert(r2 =~= g.subrange(c2.len() as int, g.len() as int));
}

/// Splits balanced generic arguments after their first argument.
fn split_first(g: &Vec<Token>) -> (r: (Vec<Token>, Vec<Token>))
    requires
        gbalanced(toks(g@)),
    ensures
        toks(r.0@) + toks(r.1@) == toks(g@),
        gbalanced(toks(r.0@)),
        top_comma_free(toks(r.0@)),
        r.1@.len() == 0 || toks(r.1@)[0] == Tok::Punct(COMMA),
{
    let ghost gv = toks(g@);
    let n = g.len();
    let mut k: usize = 0;
    let mut level: usize = 0;
    let mut first: Vec<Token> = Vec::new();
    assert(gv.subrange(0, 0) =~= Seq::<Tok>::empty());
    while k < n
        invariant_except_break
            n == g@.len(),
            gv == toks(g@),
            gbalanced(gv),
            k <= n,
            toks(first@) == gv.subrange(0, k as int),
            level == gdepth(gv.subrange(0, k as int)),
            level <= k,
            top_comma_free(gv.subrange(0, k as int)),
        ensures
            k <= n,
            toks(first@) == gv.subrange(0, k as int),
            level == gdepth(gv.subrange(0, k as int)),
            top_comma_free(gv.subrange(0, k as int)),
            k == n || (level == 0 && gv[k as int] == Tok::Punct(COMMA)),
        decreases n - k,
    {
        let ghost cur = gv.subrange(0, k as int);
        let ghost next = gv.subrange(0, k + 1);
        assert(next.drop_last() =~= cur);
        assert(next.last() == gv[k as int]);
        assert(gdepth(next) >= 0);
        let tok = &g[k];
        let is_comma = match tok {
            Token::Punct(c) => *c == COMMA,
            _ => false,
        };
        if is_comma && level == 0 {
            break;
        }
        let closing = match tok {
            Token::Close(_) => true,
            Token::Punct(c) => *c == GT,
            _ => false,
        };
        let opening = match tok {
            Token::Open(_) => true,
            Token::Punct(c) => *c == LT,
            _ => false,
        };
        if closing {
            level = level - 1;
        } else if opening {
            level = level + 1;
        }
        first.push(copy_token(tok));
        proof {
            assert(toks(first@) =~= next);
            assert forall|j: int| 0 <= j < next.len() && next[j] == Tok::Punct(COMMA) implies gdepth(#[trigger] next.subrange(0, j)) > 0 by {
                if j < k {
                    assert(next.subrange(0, j) =~= cur.subrange(0, j));
                    assert(cur[j] == next[j]);
                } else {
                    assert(next.subrange(0, j) =~= cur);
                }
            }
        }
        k = k + 1;
    }
    let mut rest: Vec<Token> = Vec::new();
    let mut j: usize = k;
    while j < n
        invariant
            n == g@.len(),
            gv == toks(g@),
            k <= j <= n,
            toks(rest@) == gv.subrange(k as int, j as int),
        decreases n - j,
    {
        let ghost before = rest@;
        rest.push(copy_token(&g[j]));
        proof {
            assert(rest@ == before.push(rest@.last()));
            assert(rest@.last().tok() == gv[j as int]);
            assert(toks(rest@) =~= toks(before).push(gv[j as int]));
            assert(gv.subrange(k as int, j + 1) =~= gv.subrange(k as int, j as int).push(gv[j as int]));
        }
        j = j + 1;
    }
    proof {
        let c = gv.subrange(0, k as int);
        assert(c + gv.subrange(k as int, n as int) =~= gv);
        assert forall|q: int| 0 <= q <= c.len() implies gdepth(#[trigger] c.subrange(0, q)) >= 0 by {
            assert(c.subrange(0, q) =~= gv.subrange(0, q));
        }
        if k == n {
            assert(c =~= gv);
        }
    }
    (first, rest)
}

/// Whether two identifiers are the same.
pub(crate) fn same_text(a: &Vec<u8>, b: &Vec<u8>) -> (r: bool)
    ensures
        r == (a@ == b@),
{
    if a.len() != b.len() {
        return false;
    }
    let mut i: usize = 0;
    while i < a.len()
        invariant
            a@.len() == b@.len(),
            i <= a@.len(),
            forall|j: int| 0 <= j < i ==> a@[j] == b@[j],
        decreases a@.len() - i,
    {
        if a[i] != b[i] {
            return false;
        }
        i = i + 1;
    }
    assert(a@ =~= b@);
    true
}

fn text_view() -> (r: Vec<u8>)
    ensures
        r@ == word_view(),
{
    let r = vec![86u8, 105u8, 101u8, 119u8];
    assert(r@ =~= word_view());
    r
}

fn text_view_mut() -> (r: Vec<u8>)
    ensures
        r@ == word_view_mut(),
{
    let r = vec![86u8, 105u8, 101u8, 119u8, 77u8, 117u8, 116u8];
    assert(r@ =~= word_view_mut());
    r
}

/// Whether the tokens begin a type.
fn type_start_exec(c: &Vec<Token>) -> (r: bool)
    ensures
        r == (type_start(toks(c@)) && colons_paired(toks(c@))),
{
    let ghost cv = toks(c@);
    if c.len() == 0 {
        return false;
    }
    let starts = match &c[0] {
        Token::Ident(_) => true,
        Token::Open(d) => *d == Delim::Paren || *d == Delim::Bracket,
        Token::Punct(x) => *x == AMP || *x == STAR || *x == LT || *x == BANG,
        _ => false,
    };
    if !starts {
        return false;
    }
    let n = c.len();
    let mut k: usize = 0;
    while k < n
        invariant
            n == c@.len(),
            cv == toks(c@),
            k <= n,
            forall|j: int| 0 <= j < k && #[trigger] cv[j] == Tok::Punct(COLON)
                ==> (j + 1 < cv.len() && cv[j + 1] == Tok::Punct(COLON)) || (j > 0 && cv[j - 1] == Tok::Punct(COLON)),
        decreases n - k,
    {
        let is_colon = match &c[k] {
            Token::Punct(x) => *x == COLON,
            _ => false,
        };
        if is_colon {
            let next = k + 1 < n && match &c[k + 1] {
                Token::Punct(x) => *x == COLON,
                _ => false,
            };
            let prev = k > 0 && match &c[k - 1] {
                Token::Punct(x) => *x == COLON,
                _ => false,
            };
            if !next && !prev {
                assert(cv[k as int] == Tok::Punct(COLON));
                return false;
            }
        }
        k = k + 1;
    }
    true
}

/// Reads a view argument at `pos`. Returns it and the position after it, or
/// why there is none.
pub fn parse_arg(t: &Vec<Token>, pos: usize) -> (r: Result<(ViewArg, usize), ParseError>)
    ensures
        r matches Ok((a, e)) ==> (arg_ok(a.spec()) && holds_at(toks(t@), pos as int, render_arg(a.spec()))
            && e == pos + render_arg(a.spec()).len()),
        forall|a: ArgSpec| arg_ok(a) && #[trigger] holds_at(toks(t@), pos as int, render_arg(a))
            ==> (r matches Ok((b, e)) && b.spec() == a),
        r matches Err(x) ==> arg_error(toks(t@), pos as int, x),
{
    proof {
        reveal(arg_ok);
    }
    let ghost tv = toks(t@);
    let name = match ident_at(t, pos) {
        Some(w) => w,
        None => {
            proof {
                assert forall|a: ArgSpec| arg_ok(a) && #[trigger] holds_at(tv, pos as int, render_arg(a)) implies false by {
                    lemma_holds_at_index(tv, pos as int, render_arg(a), 0);
                }
            }
            return Err(ParseError::Malformed);
        },
    };
    if !punct_at(t, pos + 1, COLON) {
        proof {
            assert forall|a: ArgSpec| arg_ok(a) && #[trigger] holds_at(tv, pos as int, render_arg(a)) implies false by {
                lemma_holds_at_index(tv, pos as int, render_arg(a), 1);
            }
        }
        return Err(ParseError::Malformed);
    }
    let ghost head = seq![Tok::Ident(name@), Tok::Punct(COLON)];
    proof {
        assert(tv.subrange(pos as int, pos + 2) =~= head);
        assert forall|a: ArgSpec| arg_ok(a) && #[trigger] holds_at(tv, pos as int, render_arg(a)) implies
            a.name == name@ && path_at(tv, pos + 2, view_path(a))
            && holds_at(tv, pos + 2 + render_path(view_path(a)).len(), render_generics(a.component + a.rest)) by {
            let vp = render_path(view_path(a));
            let rg = render_generics(a.component + a.rest);
            assert(render_arg(a) =~= head.update(0, Tok::Ident(a.name)) + (vp + rg));
            lemma_holds_at_index(tv, pos as int, render_arg(a), 0);
            lemma_holds_at_concat(tv, pos as int, head.update(0, Tok::Ident(a.name)), vp + rg);
            lemma_holds_at_concat(tv, pos + 2, vp, rg);
            lemma_holds_at_index(tv, pos + 2 + vp.len(), rg, 0);
        }
    }
    let (segs, e1) = match parse_path(t, pos + 2) {
        Some(x) => x,
        None => {
            proof {
                assert(arg_head(tv, pos as int));
            }
            return Err(ParseError::ExpectedViewArgs);
        },
    };
    let ghost sp = words(segs@);
    proof {
        assert(path_at(tv, pos + 2, sp));
        assert forall|q: Seq<Seq<u8>>| #[trigger] path_at(tv, pos + 2, q) implies q == sp by {}
    }
    let mut prefix = segs;
    let last = prefix.pop().unwrap();
    proof {
        assert(sp =~= words(prefix@).push(last@));
    }
    let is_mut = if same_text(&last, &text_view()) {
        false
    } else if same_text(&last, &text_view_mut()) {
        true
    } else {
        proof {
            assert(sp.last() == last@);
            assert(arg_error(tv, pos as int, ParseError::ExpectedView));
            assert forall|a: ArgSpec| arg_ok(a) && #[trigger] holds_at(tv, pos as int, render_arg(a)) implies false by {
                assert(view_path(a) == sp);
            }
        }
        return Err(ParseError::ExpectedView);
    };
    proof {
        assert forall|q: Seq<Seq<u8>>| #[trigger] path_at(tv, pos + 2, q) implies is_view_word(q.last()) by {
            assert(q == sp);
        }
        assert(arg_error(tv, pos as int, ParseError::ExpectedViewArgs));
    }
    let (g, e2) = match parse_generics(t, e1) {
        Some(x) => x,
        None => {
            proof {
                assert forall|a: ArgSpec| arg_ok(a) && #[trigger] holds_at(tv, pos as int, render_arg(a)) implies false by {
                    assert(view_path(a) == sp);
                    assert(holds_at(tv, e1 as int, render_generics(a.component + a.rest)));
                }
            }
            return Err(ParseError::ExpectedViewArgs);
        },
    };
    let (component, rest) = split_first(&g);
    if !type_start_exec(&component) {
        proof {
            assert forall|a: ArgSpec| arg_ok(a) && #[trigger] holds_at(tv, pos as int, render_arg(a)) implies false by {
                assert(view_path(a) == sp);
                assert(holds_at(tv, e1 as int, render_generics(a.component + a.rest)));
                assert(toks(g@) == a.component + a.rest);
                lemma_first_arg_unique(a.component, a.rest, toks(component@), toks(rest@));
            }
        }
        return Err(ParseError::ExpectedViewArgs);
    }
    let arg = ViewArg { name, prefix, is_mut, component, rest };
    proof {
        let sa = arg.spec();
        let vp = render_path(sp);
        assert(view_path(sa) == sp);
        assert(sa.component + sa.rest == toks(g@));
        assert(render_arg(sa) =~= head + (vp + render_generics(toks(g@))));
        lemma_holds_at_concat(tv, pos + 2, vp, render_generics(toks(g@)));
        lemma_holds_at_concat(tv, pos as int, head, vp + render_generics(toks(g@)));
        assert forall|a: ArgSpec| arg_ok(a) && #[trigger] holds_at(tv, pos as int, render_arg(a)) implies sa == a by {
            assert(view_path(a) == sp);
            let q = view_path(a);
            assert(q.drop_last() =~= a.prefix);
            assert(sp.drop_last() =~= words(prefix@));
            assert(q.last() == last@);
            if a.is_mut != is_mut {
                assert(word_view() != word_view_mut()) by {
                    assert(word_view().len() != word_view_mut().len());
                }
            }
            assert(holds_at(tv, e1 as int, render_generics(a.component + a.rest)));
            assert(toks(g@) == a.component + a.rest);
            lemma_first_arg_unique(a.component, a.rest, toks(component@), toks(rest@));
        }
    }
    Ok((arg, e2))
}

/// Reads the parenthesised view arguments of a system function at `pos`.
/// Returns them, whether a comma follows the last one, and the position after
/// the list.
pub fn parse_arg_list(t: &Vec<Token>, pos: usize) -> (r: Result<(Vec<ViewArg>, bool, usize), ParseError>)
    ensures
        r matches Ok((ps, trailing, e)) ==> ({
            let xs = ps@.map_values(|a: ViewArg| a.spec());
            &&& list_ok(xs, trailing)
            &&& forall|i: int| 0 <= i < xs.len() ==> arg_ok(#[trigger] xs[i])
            &&& holds_at(toks(t@), pos as int, render_delimited(Delim::Paren, xs, arg_render(), trailing))
            &&& e == pos + render_delimited(Delim::Paren, xs, arg_render(), trailing).len()
        }),
        forall|xs: Seq<ArgSpec>, trailing: bool|
            list_ok(xs, trailing) && (forall|i: int| 0 <= i < xs.len() ==> arg_ok(#[trigger] xs[i]))
                && #[trigger] holds_at(toks(t@), pos as int, render_delimited(Delim::Paren, xs, arg_render(), trailing))
                ==> (r matches Ok((ps, tr, e)) && ps@.map_values(|a: ViewArg| a.spec()) == xs && tr == trailing),
        r matches Err(x) ==> x == ParseError::Malformed || (exists|q: int| pos < q && #[trigger] arg_error(toks(t@), q, x)),
        forall|ys: Seq<ArgSpec>, x: ParseError| #[trigger] list_fails(toks(t@), pos as int, ys, x)
            ==> r == Err::<(Vec<ViewArg>, bool, usize), ParseError>(x),
{
    let ghost tv = toks(t@);
    let ghost f = arg_render();
    if !delim_at(t, pos, true, Delim::Paren) {
        proof {
            assert forall|ys: Seq<ArgSpec>, x: ParseError| #[trigger] list_fails(tv, pos as int, ys, x) implies false by {
                lemma_holds_at_index(tv, pos as int, seq![Tok::Open(Delim::Paren)] + render_sep(ys, f), 0);
            }
            assert forall|xs: Seq<ArgSpec>, trailing: bool|
                list_ok(xs, trailing) && (forall|i: int| 0 <= i < xs.len() ==> arg_ok(#[trigger] xs[i]))
                    && #[trigger] holds_at(tv, pos as int, render_delimited(Delim::Paren, xs, f, trailing)) implies false by {
                lemma_holds_at_index(tv, pos as int, render_delimited(Delim::Paren, xs, f, trailing), 0);
            }
        }
        return Err(ParseError::Malformed);
    }
    let n = t.len();
    let mut ps: Vec<ViewArg> = Vec::new();
    let mut p: usize = pos + 1;
    proof {
        assert(ps@.map_values(|a: ViewArg| a.spec()) =~= Seq::<ArgSpec>::empty());
        assert forall|xs: Seq<ArgSpec>, trailing: bool|
            list_ok(xs, trailing) && (forall|i: int| 0 <= i < xs.len() ==> arg_ok(#[trigger] xs[i]))
                && #[trigger] holds_at(tv, pos as int, render_delimited(Delim::Paren, xs, f, trailing))
                implies ps@.map_values(|a: ViewArg| a.spec()) == xs.subrange(0, 0) by {
            assert(xs.subrange(0, 0) =~= Seq::<ArgSpec>::empty());
        }
        assert(tv.subrange(pos as int, pos + 1) =~= seq![Tok::Open(Delim::Paren)] + render_sep(Seq::<ArgSpec>::empty(), f));
        assert forall|ys: Seq<ArgSpec>, x: ParseError| #[trigger] list_fails(tv, pos as int, ys, x)
            implies ps@.map_values(|a: ViewArg| a.spec()) == ys.subrange(0, 0) by {
            assert(ys.subrange(0, 0) =~= Seq::<ArgSpec>::empty());
        }
    }
    loop
        invariant
            tv == toks(t@),
            f == arg_render(),
            n == t@.len(),
            p <= n,
            ({
                let done = ps@.map_values(|a: ViewArg| a.spec());
                &&& forall|i: int| 0 <= i < done.len() ==> arg_ok(#[trigger] done[i])
                &&& holds_at(tv, pos as int, seq![Tok::Open(Delim::Paren)] + render_sep(done, f))
                &&& p == pos + 1 + render_sep(done, f).len()
                &&& forall|xs: Seq<ArgSpec>, trailing: bool|
                    list_ok(xs, trailing) && (forall|i: int| 0 <= i < xs.len() ==> arg_ok(#[trigger] xs[i]))
                        && #[trigger] holds_at(tv, pos as int, render_delimited(Delim::Paren, xs, f, trailing))
                        ==> done.len() <= xs.len() && done == xs.subrange(0, done.len() as int)
                            && (done.len() < xs.len() || trailing || xs.len() == 0)
            &&& forall|ys: Seq<ArgSpec>, x: ParseError| #[trigger] list_fails(tv, pos as int, ys, x)
                ==> done.len() <= ys.len() && done == ys.subrange(0, done.len() as int)
            }),
        decreases n - p,
    {
        let ghost done = ps@.map_values(|a: ViewArg| a.spec());
        if delim_at(t, p, false, Delim::Paren) {
            let trailing = ps.len() > 0;
            proof {
                let xs = done;
                let body = render_sep(xs, f);
                lemma_holds_at_concat(tv, pos as int, seq![Tok::Open(Delim::Paren)] + body, seq![Tok::Close(Delim::Paren)]);
                assert(tv.subrange(p as int, p + 1) =~= seq![Tok::Close(Delim::Paren)]);
                assert(render_delimited(Delim::Paren, xs, f, trailing) =~= seq![Tok::Open(Delim::Paren)] + body + seq![Tok::Close(Delim::Paren)]);
                assert forall|ys: Seq<ArgSpec>, tr: bool|
                    list_ok(ys, tr) && (forall|i: int| 0 <= i < ys.len() ==> arg_ok(#[trigger] ys[i]))
                        && #[trigger] holds_at(tv, pos as int, render_delimited(Delim::Paren, ys, f, tr))
                        implies done == ys && tr == trailing by {
                    let k = done.len() as int;
                    if k < ys.len() {
                        lemma_list_at(tv, pos as int, ys, f, tr, k, Delim::Paren);
                        assert(render_arg(ys[k])[0] == Tok::Ident(ys[k].name));
                        lemma_holds_at_index(tv, p as int, f(ys[k]), 0);
                        assert(false);
                    }
                    assert(ys.subrange(0, k) =~= ys);
                }
                assert forall|ys: Seq<ArgSpec>, y: ParseError| #[trigger] list_fails(tv, pos as int, ys, y) implies false by {
                    let k = done.len() as int;
                    if k < ys.len() {
                        lemma_sep_at(tv, pos as int, ys, f, k);
                        assert(render_arg(ys[k])[0] == Tok::Ident(ys[k].name));
                        lemma_holds_at_index(tv, p as int, f(ys[k]), 0);
                    } else {
                        assert(ys.subrange(0, k) =~= ys);
                    }
                }
            }
            return Ok((ps, trailing, p + 1));
        }
        let (path, e) = match parse_arg(t, p) {
            Ok(x) => x,
            Err(err) => {
                proof {
                    assert forall|ys: Seq<ArgSpec>, tr: bool|
                        list_ok(ys, tr) && (forall|i: int| 0 <= i < ys.len() ==> arg_ok(#[trigger] ys[i]))
                            && #[trigger] holds_at(tv, pos as int, render_delimited(Delim::Paren, ys, f, tr))
                            implies false by {
                        let k = done.len() as int;
                        lemma_list_at(tv, pos as int, ys, f, tr, k, Delim::Paren);
                        if k == ys.len() {
                        } else {
                            assert(holds_at(tv, p as int, render_arg(ys[k])));
                        }
                    }
                }
                proof {
                    assert(arg_error(tv, p as int, err));
                    assert forall|ys: Seq<ArgSpec>, y: ParseError| #[trigger] list_fails(tv, pos as int, ys, y) implies err == y by {
                        let k = done.len() as int;
                        if k < ys.len() {
                            lemma_sep_at(tv, pos as int, ys, f, k);
                            assert(holds_at(tv, p as int, render_arg(ys[k])));
                            assert(arg_ok(ys[k]));
                        } else {
                            assert(ys.subrange(0, k) =~= ys);
                            lemma_arg_error_unique(tv, p as int, err, y);
                        }
                    }
                }
                return Err(err);
            },
        };
        let ghost x = path.spec();
        let ghost done2 = done.push(x);
        proof {
            lemma_render_sep_step(done2, f, done.len() as int);
            assert(done2.subrange(0, done.len() as int) =~= done);
            assert(done2.subrange(0, done.len() as int + 1) =~= done2);
            lemma_holds_at_concat(tv, pos as int, seq![Tok::Open(Delim::Paren)] + render_sep(done, f), render_arg(x));
            assert(seq![Tok::Open(Delim::Paren)] + render_sep(done, f) + render_arg(x) =~= seq![Tok::Open(Delim::Paren)] + (render_sep(done, f) + f(x)));
            assert forall|ys: Seq<ArgSpec>, tr: bool|
                list_ok(ys, tr) && (forall|i: int| 0 <= i < ys.len() ==> arg_ok(#[trigger] ys[i]))
                    && #[trigger] holds_at(tv, pos as int, render_delimited(Delim::Paren, ys, f, tr))
                    implies done.len() < ys.len() && ys[done.len() as int] == x by {
                let k = done.len() as int;
                lemma_list_at(tv, pos as int, ys, f, tr, k, Delim::Paren);
                if k == ys.len() {
                    assert(tv[p as int] == Tok::Close(Delim::Paren));
                    assert(render_arg(x)[0] == Tok::Ident(x.name));
                    lemma_holds_at_index(tv, p as int, render_arg(x), 0);
                } else {
                    assert(holds_at(tv, p as int, render_arg(ys[k])));
                }
            }
            assert forall|ys: Seq<ArgSpec>, y: ParseError| #[trigger] list_fails(tv, pos as int, ys, y)
                implies done.len() < ys.len() && ys[done.len() as int] == x && e < tv.len() && tv[e as int] == Tok::Punct(COMMA) by {
                let k = done.len() as int;
                if k == ys.len() {
                    assert(ys.subrange(0, k) =~= ys);
                    assert(arg_ok(x) && holds_at(tv, p as int, render_arg(x)));
                } else {
                    lemma_sep_at(tv, pos as int, ys, f, k);
                    assert(holds_at(tv, p as int, render_arg(ys[k])));
                    assert(arg_ok(ys[k]));
                }
            }
        }
        if punct_at(t, e, COMMA) {
            ps.push(path);
            proof {
                let d2 = ps@.map_values(|a: ViewArg| a.spec());
                assert(d2 =~= done2);
                assert(tv.subrange(e as int, e + 1) =~= seq![Tok::Punct(COMMA)]);
                lemma_holds_at_concat(tv, pos as int, seq![Tok::Open(Delim::Paren)] + render_sep(done, f) + render_arg(x), seq![Tok::Punct(COMMA)]);
                assert(seq![Tok::Open(Delim::Paren)] + render_sep(done2, f) =~= seq![Tok::Open(Delim::Paren)] + render_sep(done, f) + render_arg(x) + seq![Tok::Punct(COMMA)]);
                assert forall|ys: Seq<ArgSpec>, tr: bool|
                    list_ok(ys, tr) && (forall|i: int| 0 <= i < ys.len() ==> arg_ok(#[trigger] ys[i]))
                        && #[trigger] holds_at(tv, pos as int, render_delimited(Delim::Paren, ys, f, tr))
                        implies d2.len() <= ys.len() && d2 == ys.subrange(0, d2.len() as int)
                            && (d2.len() < ys.len() || tr || ys.len() == 0) by {
                    let k = done.len() as int;
                    lemma_list_at(tv, pos as int, ys, f, tr, k, Delim::Paren);
                    assert(d2 =~= ys.subrange(0, k + 1));
                    if k + 1 == ys.len() && !tr {
                        assert(tv[e as int] == Tok::Close(Delim::Paren));
                    }
                }
                assert forall|i: int| 0 <= i < d2.len() implies arg_ok(#[trigger] d2[i]) by {
                    if i < done.len() {
                        assert(d2[i] == done[i]);
                    }
                }
                assert forall|ys: Seq<ArgSpec>, y: ParseError| #[trigger] list_fails(tv, pos as int, ys, y)
                    implies d2.len() <= ys.len() && d2 == ys.subrange(0, d2.len() as int) by {
                    let k = done.len() as int;
                    assert(d2 =~= ys.subrange(0, k + 1));
                }
            }
            p = e + 1;
        } else if delim_at(t, e, false, Delim::Paren) {
            ps.push(path);
            proof {
                let d2 = ps@.map_values(|a: ViewArg| a.spec());
                assert(d2 =~= done2);
                assert(render_sep(done2, f).drop_last() =~= render_sep(done, f) + f(x));
                assert(render_delimited(Delim::Paren, d2, f, false) =~= seq![Tok::Open(Delim::Paren)] + render_sep(done, f) + render_arg(x) + seq![Tok::Close(Delim::Paren)]);
                assert(tv.subrange(e as int, e + 1) =~= seq![Tok::Close(Delim::Paren)]);
                lemma_holds_at_concat(tv, pos as int, seq![Tok::Open(Delim::Paren)] + render_sep(done, f) + render_arg(x), seq![Tok::Close(Delim::Paren)]);
                assert forall|ys: Seq<ArgSpec>, tr: bool|
                    list_ok(ys, tr) && (forall|i: int| 0 <= i < ys.len() ==> arg_ok(#[trigger] ys[i]))
                        && #[trigger] holds_at(tv, pos as int, render_delimited(Delim::Paren, ys, f, tr))
                        implies d2 == ys && !tr by {
                    let k = done.len() as int;
                    lemma_list_at(tv, pos as int, ys, f, tr, k, Delim::Paren);
                    if k + 1 < ys.len() || tr {
                        assert(tv[e as int] == Tok::Punct(COMMA));
                    }
                    assert(d2 =~= ys);
                }
                assert forall|i: int| 0 <= i < d2.len() implies arg_ok(#[trigger] d2[i]) by {
                    if i < done.len() {
                        assert(d2[i] == done[i]);
                    }
                }
            }
            return Ok((ps, false, e + 1));
        } else {
            proof {
                assert forall|ys: Seq<ArgSpec>, tr: bool|
                    list_ok(ys, tr) && (forall|i: int| 0 <= i < ys.len() ==> arg_ok(#[trigger] ys[i]))
                        && #[trigger] holds_at(tv, pos as int, render_delimited(Delim::Paren, ys, f, tr))
                        implies false by {
                    let k = done.len() as int;
                    lemma_list_at(tv, pos as int, ys, f, tr, k, Delim::Paren);
                }
            }
            return Err(ParseError::Malformed);
        }
    }
}

/// The kind of a filter clause.
#[derive(Clone, Copy, Debug, PartialEq, Eq, Structural)]
pub enum FilterKind {
    /// `All=[..]`: the entity must have each component.
    All,
    /// `None=[..]`: the entity must have none of the components.
    Excluded,
    /// `Changed=[..]`: each component must have changed.
    Changed,
    /// `Remove=[..]`: the components are removed from the selected entities.
    Remove,
}

/// The keyword of a filter clause: `All`, `None`, `Changed` or `Remove`.
pub open spec fn filter_word(k: FilterKind) -> Seq<u8> {
    match k {
        FilterKind::All => seq![65u8, 108u8, 108u8],
        FilterKind::Excluded => seq![78u8, 111u8, 110u8, 101u8],
        FilterKind::Changed => seq![67u8, 104u8, 97u8, 110u8, 103u8, 101u8, 100u8],
        FilterKind::Remove => seq![82u8, 101u8, 109u8, 111u8, 118u8, 101u8],
    }
}

fn filter_text(k: FilterKind) -> (r: Vec<u8>)
    ensures
        r@ == filter_word(k),
{
    let r = match k {
        FilterKind::All => vec![65u8, 108u8, 108u8],
        FilterKind::Excluded => vec![78u8, 111u8, 110u8, 101u8],
        FilterKind::Changed => vec![67u8, 104u8, 97u8, 110u8, 103u8, 101u8, 100u8],
        FilterKind::Remove => vec![82u8, 101u8, 109u8, 111u8, 118u8, 101u8],
    };
    assert(r@ =~= filter_word(k));
    r
}

/// A filter clause `Kind=[A, B]`.
pub struct FilterSpec {
    pub kind: FilterKind,
    pub types: Seq<Seq<Tok>>,
    pub trailing: bool,
}

pub open spec fn render_filter(f: FilterSpec) -> Seq<Tok> {
    seq![Tok::Ident(filter_word(f.kind)), Tok::Punct(EQ)] + render_delimited(Delim::Bracket, f.types, type_render(), f.trailing)
}

pub open spec fn filter_ok(f: FilterSpec) -> bool {
    &&& list_ok(f.types, f.trailing)
    &&& forall|i: int| 0 <= i < f.types.len() ==> type_ok(#[trigger] f.types[i])
}

/// A filter clause.
pub struct Filter {
    pub kind: FilterKind,
    pub types: Vec<Vec<Token>>,
    pub trailing: bool,
}

impl Filter {
    pub open spec fn spec(&self) -> FilterSpec {
        FilterSpec { kind: self.kind, types: self.types@.map_values(|p: Vec<Token>| toks(p@)), trailing: self.trailing }
    }
}

/// Reads a filter clause at `pos`. Returns it and the position after it.
#[verifier::spinoff_prover]
#[verifier::rlimit(40)]
pub fn parse_filter(t: &Vec<Token>, pos: usize) -> (r: Option<(Filter, usize)>)
    ensures
        r matches Some((f, e)) ==> (filter_ok(f.spec()) && holds_at(toks(t@), pos as int, render_filter(f.spec()))
            && e == pos + render_filter(f.spec()).len()),
        forall|f: FilterSpec| filter_ok(f) && #[trigger] holds_at(toks(t@), pos as int, render_filter(f))
            ==> (r matches Some((g, e)) && g.spec() == f),
{
    let ghost tv = toks(t@);
    let word = match ident_at(t, pos) {
        Some(w) => w,
        None => {
            proof {
                assert forall|f: FilterSpec| filter_ok(f) && #[trigger] holds_at(tv, pos as int, render_filter(f)) implies false by {
                    lemma_holds_at_index(tv, pos as int, render_filter(f), 0);
                }
            }
            return None;
        },
    };
    proof {
        assert forall|f: FilterSpec| filter_ok(f) && #[trigger] holds_at(tv, pos as int, render_filter(f)) implies
            filter_word(f.kind) == word@ && tv[pos + 1] == Tok::Punct(EQ)
            && holds_at(tv, pos + 2, render_delimited(Delim::Bracket, f.types, type_render(), f.trailing)) by {
            lemma_holds_at_index(tv, pos as int, render_filter(f), 0);
            lemma_holds_at_index(tv, pos as int, render_filter(f), 1);
            lemma_holds_at_concat(tv, pos as int, seq![Tok::Ident(filter_word(f.kind)), Tok::Punct(EQ)], render_delimited(Delim::Bracket, f.types, type_render(), f.trailing));
        }
    }
    let kind = if same_text(&word, &filter_text(FilterKind::All)) {
        FilterKind::All
    } else if same_text(&word, &filter_text(FilterKind::Excluded)) {
        FilterKind::Excluded
    } else if same_text(&word, &filter_text(FilterKind::Changed)) {
        FilterKind::Changed
    } else if same_text(&word, &filter_text(FilterKind::Remove)) {
        FilterKind::Remove
    } else {
        proof {
            assert forall|f: FilterSpec| filter_ok(f) && #[trigger] holds_at(tv, pos as int, render_filter(f)) implies false by {
                assert(filter_word(f.kind) == word@);
            }
        }
        return None;
    };
    proof {
        assert forall|f: FilterSpec| filter_ok(f) && #[trigger] holds_at(tv, pos as int, render_filter(f)) implies f.kind == kind by {
            assert(filter_word(f.kind) == filter_word(kind));
            assert(filter_word(f.kind).len() == filter_word(kind).len());
        }
    }
    if !punct_at(t, pos + 1, EQ) {
        return None;
    }
    let (types, trailing, e) = match parse_type_list(t, pos + 2) {
        Some(x) => x,
        None => {
            return None;
        },
    };
    let f = Filter { kind, types, trailing };
    proof {
        let sf = f.spec();
        assert(tv.subrange(pos as int, pos + 2) =~= seq![Tok::Ident(filter_word(kind)), Tok::Punct(EQ)]);
        lemma_holds_at_concat(tv, pos as int, seq![Tok::Ident(filter_word(kind)), Tok::Punct(EQ)], render_delimited(Delim::Bracket, sf.types, type_render(), sf.trailing));
    }
    Some((f, e))
}

/// Items one after the other.
pub open spec fn render_all<A>(xs: Seq<A>, f: spec_fn(A) -> Seq<Tok>) -> Seq<Tok>
    decreases xs.len(),
{
    if xs.len() == 0 {
        Seq::empty()
    } else {
        render_all(xs.drop_last(), f) + f(xs.last())
    }
}

pub open spec fn filter_render() -> spec_fn(FilterSpec) -> Seq<Tok> {
    |f: FilterSpec| render_filter(f)
}

proof fn lemma_render_all_step<A>(xs: Seq<A>, f: spec_fn(A) -> Seq<Tok>, k: int)
    requires
        0 <= k < xs.len(),
    ensures
        render_all(xs.subrange(0, k + 1), f) == render_all(xs.subrange(0, k), f) + f(xs[k]),
{
    assert(xs.subrange(0, k + 1).drop_last() =~= xs.subrange(0, k));
}

proof fn lemma_render_all_prefix<A>(xs: Seq<A>, f: spec_fn(A) -> Seq<Tok>, k: int)
    requires
        0 <= k <= xs.len(),
    ensures
        render_all(xs.subrange(0, k), f).len() <= render_all(xs, f).len(),
        render_all(xs, f).subrange(0, render_all(xs.subrange(0, k), f).len() as int) == render_all(xs.subrange(0, k), f),
    decreases xs.len(),
{
    if k == xs.len() {
        assert(xs.subrange(0, k) =~= xs);
        assert(render_all(xs, f).subrange(0, render_all(xs, f).len() as int) =~= render_all(xs, f));
    } else {
        let ys = xs.drop_last();
        assert(ys.subrange(0, k) =~= xs.subrange(0, k));
        lemma_render_all_prefix(ys, f, k);
        let n = render_all(xs.subrange(0, k), f).len() as int;
        assert(render_all(xs, f).subrange(0, n) =~= render_all(ys, f).subrange(0, n));
    }
}

/// Where the rendering of `xs` holds, that of its item `k` holds right after
/// that of the items before it.
proof fn lemma_render_all_at<A>(t: Seq<Tok>, pos: int, xs: Seq<A>, f: spec_fn(A) -> Seq<Tok>, k: int)
    requires
        holds_at(t, pos, render_all(xs, f)),
        0 <= k < xs.len(),
    ensures
        holds_at(t, pos + render_all(xs.subrange(0, k), f).len(), f(xs[k])),
{
    lemma_render_all_step(xs, f, k);
    lemma_render_all_prefix(xs, f, k + 1);
    let upto = render_all(xs.subrange(0, k + 1), f);
    let whole = render_all(xs, f);
    assert(whole =~= upto + whole.subrange(upto.len() as int, whole.len() as int));
    lemma_holds_at_concat(t, pos, upto, whole.subrange(upto.len() as int, whole.len() as int));
    lemma_holds_at_concat(t, pos, render_all(xs.subrange(0, k), f), f(xs[k]));
}

/// Whether the token at `pos`, if any, is not an identifier: no filter
/// clause begins there.
pub open spec fn filters_end_at(t: Seq<Tok>, pos: int) -> bool {
    pos == t.len() || !(t[pos] is Ident)
}

/// Reads the filter clauses at `pos`, as many as follow. Returns them and the
/// position after them.
pub fn parse_filters(t: &Vec<Token>, pos: usize) -> (r: Option<(Vec<Filter>, usize)>)
    ensures
        r matches Some((fs, e)) ==> ({
            let xs = fs@.map_values(|f: Filter| f.spec());
            &&& forall|i: int| 0 <= i < xs.len() ==> filter_ok(#[trigger] xs[i])
            &&& holds_at(toks(t@), pos as int, render_all(xs, filter_render()))
            &&& e == pos + render_all(xs, filter_render()).len()
        }),
        forall|xs: Seq<FilterSpec>|
            (forall|i: int| 0 <= i < xs.len() ==> filter_ok(#[trigger] xs[i]))
                && #[trigger] holds_at(toks(t@), pos as int, render_all(xs, filter_render()))
                && filters_end_at(toks(t@), pos + render_all(xs, filter_render()).len())
                ==> (r matches Some((fs, e)) && fs@.map_values(|f: Filter| f.spec()) == xs),
{
    let ghost tv = toks(t@);
    let ghost g = filter_render();
    let n = t.len();
    if pos > n {
        return None;
    }
    let mut fs: Vec<Filter> = Vec::new();
    let mut p: usize = pos;
    proof {
        assert(fs@.map_values(|f: Filter| f.spec()) =~= Seq::<FilterSpec>::empty());
        assert(tv.subrange(pos as int, pos as int) =~= render_all(Seq::<FilterSpec>::empty(), g));
        assert forall|xs: Seq<FilterSpec>|
            (forall|i: int| 0 <= i < xs.len() ==> filter_ok(#[trigger] xs[i]))
                && #[trigger] holds_at(tv, pos as int, render_all(xs, g))
                && filters_end_at(tv, pos + render_all(xs, g).len())
                implies fs@.map_values(|f: Filter| f.spec()) == xs.subrange(0, 0) by {
            assert(xs.subrange(0, 0) =~= Seq::<FilterSpec>::empty());
        }
    }
    while p < n && ident_at(t, p).is_some()
        invariant
            tv == toks(t@),
            g == filter_render(),
            n == t@.len(),
            pos <= p <= n,
            ({
                let done = fs@.map_values(|f: Filter| f.spec());
                &&& forall|i: int| 0 <= i < done.len() ==> filter_ok(#[trigger] done[i])
                &&& holds_at(tv, pos as int, render_all(done, g))
                &&& p == pos + render_all(done, g).len()
                &&& forall|xs: Seq<FilterSpec>|
                    (forall|i: int| 0 <= i < xs.len() ==> filter_ok(#[trigger] xs[i]))
                        && #[trigger] holds_at(tv, pos as int, render_all(xs, g))
                        && filters_end_at(tv, pos + render_all(xs, g).len())
                        ==> done.len() <= xs.len() && done == xs.subrange(0, done.len() as int)
            }),
        decreases n - p,
    {
        let ghost done = fs@.map_values(|f: Filter| f.spec());
        let (f, e) = match parse_filter(t, p) {
            Some(x) => x,
            None => {
                proof {
                    assert forall|xs: Seq<FilterSpec>|
                        (forall|i: int| 0 <= i < xs.len() ==> filter_ok(#[trigger] xs[i]))
                            && #[trigger] holds_at(tv, pos as int, render_all(xs, g))
                            && filters_end_at(tv, pos + render_all(xs, g).len()) implies false by {
                        let k = done.len() as int;
                        if k == xs.len() {
                            assert(xs.subrange(0, k) =~= xs);
                        } else {
                            lemma_render_all_at(tv, pos as int, xs, g, k);
                            assert(filter_ok(xs[k]));
                            assert(holds_at(tv, p as int, render_filter(xs[k])));
                        }
                    }
                }
                return None;
            },
        };
        let ghost x = f.spec();
        fs.push(f);
        proof {
            let d2 = fs@.map_values(|f: Filter| f.spec());
            assert(d2 =~= done.push(x));
            lemma_render_all_step(d2, g, done.len() as int);
            assert(d2.subrange(0, done.len() as int) =~= done);
            assert(d2.subrange(0, done.len() as int + 1) =~= d2);
            lemma_holds_at_concat(tv, pos as int, render_all(done, g), render_filter(x));
            assert forall|i: int| 0 <= i < d2.len() implies filter_ok(#[trigger] d2[i]) by {
                if i < done.len() {
                    assert(d2[i] == done[i]);
                }
            }
            assert forall|xs: Seq<FilterSpec>|
                (forall|i: int| 0 <= i < xs.len() ==> filter_ok(#[trigger] xs[i]))
                    && #[trigger] holds_at(tv, pos as int, render_all(xs, g))
                    && filters_end_at(tv, pos + render_all(xs, g).len())
                    implies d2.len() <= xs.len() && d2 == xs.subrange(0, d2.len() as int) by {
                let k = done.len() as int;
                if k == xs.len() {
                    assert(xs.subrange(0, k) =~= xs);
                    assert(tv[p as int] is Ident);
                    assert(false);
                }
                lemma_render_all_at(tv, pos as int, xs, g, k);
                assert(filter_ok(xs[k]));
                assert(holds_at(tv, p as int, render_filter(xs[k])));
                assert(x == xs[k]);
                assert(d2 =~= xs.subrange(0, k + 1));
            }
        }
        p = e;
    }
    proof {
        let done = fs@.map_values(|f: Filter| f.spec());
        assert forall|xs: Seq<FilterSpec>|
            (forall|i: int| 0 <= i < xs.len() ==> filter_ok(#[trigger] xs[i]))
                && #[trigger] holds_at(tv, pos as int, render_all(xs, g))
                && filters_end_at(tv, pos + render_all(xs, g).len())
                implies done == xs by {
            let k = done.len() as int;
            if k < xs.len() {
                lemma_render_all_at(tv, pos as int, xs, g, k);
                lemma_holds_at_index(tv, p as int, render_filter(xs[k]), 0);
            } else {
                assert(xs.subrange(0, k) =~= xs);
            }
        }
    }
    Some((fs, p))
}

/// Number of groups a token sequence leaves open: openings minus closings.
pub open spec fn depth(s: Seq<Tok>) -> int
    decreases s.len(),
{
    if s.len() == 0 {
        0
    } else {
        depth(s.drop_last()) + match s.last() {
            Tok::Open(_) => 1int,
            Tok::Close(_) => -1int,
            _ => 0int,
        }
    }
}

/// Every group that a token sequence opens, it closes, and it closes none
/// that it did not open.
pub open spec fn balanced(s: Seq<Tok>) -> bool {
    &&& forall|k: int| 0 <= k <= s.len() ==> depth(#[trigger] s.subrange(0, k)) >= 0
    &&& depth(s) == 0
}

/// A block `{ .. }` around the tokens `b`.
pub open spec fn render_block(b: Seq<Tok>) -> Seq<Tok> {
    seq![Tok::Open(Delim::Brace)] + b + seq![Tok::Close(Delim::Brace)]
}

/// A copy of a token.
pub fn copy_token(t: &Token) -> (r: Token)
    ensures
        r.tok() == t.tok(),
{
    match t {
        Token::Ident(v) => Token::Ident(v.clone()),
        Token::Punct(c) => Token::Punct(*c),
        Token::Literal(v) => Token::Literal(v.clone()),
        Token::Open(d) => Token::Open(*d),
        Token::Close(d) => Token::Close(*d),
    }
}

/// Reads a block `{ .. }` at `pos` whose groups open and close in balance,
/// whatever their kinds. Returns the tokens inside it and the position after
/// it.
fn scan_block(t: &Vec<Token>, pos: usize) -> (r: Option<(Vec<Token>, usize)>)
    ensures
        r matches Some((b, e)) ==> (balanced(toks(b@)) && holds_at(toks(t@), pos as int, render_block(toks(b@)))
            && e == pos + render_block(toks(b@)).len()),
        forall|b: Seq<Tok>| balanced(b) && #[trigger] holds_at(toks(t@), pos as int, render_block(b))
            ==> (r matches Some((c, e)) && toks(c@) == b),
{
    let ghost tv = toks(t@);
    if !delim_at(t, pos, true, Delim::Brace) {
        proof {
            assert forall|b: Seq<Tok>| balanced(b) && #[trigger] holds_at(tv, pos as int, render_block(b)) implies false by {
                lemma_holds_at_index(tv, pos as int, render_block(b), 0);
            }
        }
        return None;
    }
    let n = t.len();
    let mut body: Vec<Token> = Vec::new();
    let mut level: usize = 1;
    let mut p: usize = pos + 1;
    proof {
        assert(toks(body@) =~= Seq::<Tok>::empty());
        assert(tv.subrange(pos as int, pos + 1) =~= seq![Tok::Open(Delim::Brace)] + toks(body@));
        assert forall|k: int| 0 <= k <= toks(body@).len() implies depth(#[trigger] toks(body@).subrange(0, k)) >= 0 by {
            assert(toks(body@).subrange(0, k) =~= Seq::<Tok>::empty());
        }
    }
    loop
        invariant
            tv == toks(t@),
            n == t@.len(),
            pos < p <= n,
            holds_at(tv, pos as int, seq![Tok::Open(Delim::Brace)] + toks(body@)),
            p == pos + 1 + body@.len(),
            level == 1 + depth(toks(body@)),
            level <= p,
            forall|k: int| 0 <= k <= toks(body@).len() ==> depth(#[trigger] toks(body@).subrange(0, k)) >= 0,
            forall|b: Seq<Tok>| balanced(b) && #[trigger] holds_at(tv, pos as int, render_block(b))
                ==> body@.len() <= b.len() && toks(body@) == b.subrange(0, body@.len() as int),
        decreases n - p,
    {
        let ghost cur = toks(body@);
        proof {
            assert forall|b: Seq<Tok>| balanced(b) && #[trigger] holds_at(tv, pos as int, render_block(b))
                implies p < n && (cur.len() == b.len() ==> tv[p as int] == Tok::Close(Delim::Brace))
                    && (cur.len() < b.len() ==> tv[p as int] == b[cur.len() as int]) by {
                lemma_holds_at_index(tv, pos as int, render_block(b), p - pos);
            }
        }
        if p >= n {
            return None;
        }
        let tok = &t[p];
        let ghost x = tok.tok();
        let ghost next = cur.push(x);
        assert(next.drop_last() =~= cur);
        assert(cur.subrange(0, cur.len() as int) =~= cur);
        assert(depth(cur) >= 0);
        assert(depth(next) == depth(cur) + match x {
            Tok::Open(_) => 1int,
            Tok::Close(_) => -1int,
            _ => 0int,
        });
        match tok {
            Token::Close(d) => {
                if level == 1 {
                    if *d == Delim::Brace {
                        proof {
                            assert(balanced(cur)) by {}
                            assert(tv.subrange(p as int, p + 1) =~= seq![Tok::Close(Delim::Brace)]);
                            lemma_holds_at_concat(tv, pos as int, seq![Tok::Open(Delim::Brace)] + cur, seq![Tok::Close(Delim::Brace)]);
                            assert forall|b: Seq<Tok>| balanced(b) && #[trigger] holds_at(tv, pos as int, render_block(b))
                                implies cur == b by {
                                if cur.len() < b.len() {
                                    assert(depth(b.subrange(0, cur.len() as int + 1)) >= 0);
                                    assert(b.subrange(0, cur.len() as int + 1) =~= next);
                                } else {
                                    assert(b.subrange(0, b.len() as int) =~= b);
                                }
                            }
                        }
                        return Some((body, p + 1));
                    } else {
                        proof {
                            assert forall|b: Seq<Tok>| balanced(b) && #[trigger] holds_at(tv, pos as int, render_block(b))
                                implies false by {
                                if cur.len() < b.len() {
                                    assert(depth(b.subrange(0, cur.len() as int + 1)) >= 0);
                                    assert(b.subrange(0, cur.len() as int + 1) =~= next);
                                }
                            }
                        }
                        return None;
                    }
                }
                level = level - 1;
            },
            Token::Open(_) => {
                level = level + 1;
            },
            _ => {},
        }
        body.push(copy_token(tok));
        proof {
            assert(toks(body@) =~= next);
            assert(tv.subrange(p as int, p + 1) =~= seq![x]);
            lemma_holds_at_concat(tv, pos as int, seq![Tok::Open(Delim::Brace)] + cur, seq![x]);
            assert(seq![Tok::Open(Delim::Brace)] + cur + seq![x] =~= seq![Tok::Open(Delim::Brace)] + next);
            assert forall|k: int| 0 <= k <= next.len() implies depth(#[trigger] next.subrange(0, k)) >= 0 by {
                if k <= cur.len() {
                    assert(next.subrange(0, k) =~= cur.subrange(0, k));
                } else {
                    assert(next.subrange(0, k) =~= next);
                }
            }
            assert forall|b: Seq<Tok>| balanced(b) && #[trigger] holds_at(tv, pos as int, render_block(b))
                implies next.len() <= b.len() && next == b.subrange(0, next.len() as int) by {
                if cur.len() == b.len() {
                    assert(b.subrange(0, b.len() as int) =~= b);
                    assert(x == Tok::Close(Delim::Brace));
                    assert(level == 1);
                }
                assert(next =~= b.subrange(0, cur.len() as int + 1));
            }
        }
        p = p + 1;
    }
}

/// The delimiters a token sequence leaves open, innermost last, or `None`
/// once it closes a group it did not open or with a delimiter of another
/// kind.
pub open spec fn delim_stack(s: Seq<Tok>) -> Option<Seq<Delim>>
    decreases s.len(),
{
    if s.len() == 0 {
        Some(Seq::empty())
    } else {
        match delim_stack(s.drop_last()) {
            None => None,
            Some(st) => match s.last() {
                Tok::Open(d) => Some(st.push(d)),
                Tok::Close(d) => if st.len() > 0 && st.last() == d {
                    Some(st.drop_last())
                } else {
                    None
                },
                _ => Some(st),
            },
        }
    }
}

/// Every group closes with the delimiter it opened with.
pub open spec fn kinds_match(s: Seq<Tok>) -> bool {
    delim_stack(s) == Some(Seq::<Delim>::empty())
}

/// Groups that open and close in balance, each with its own kind.
pub open spec fn nested(s: Seq<Tok>) -> bool {
    balanced(s) && kinds_match(s)
}

/// Once a prefix mismatches, the whole sequence does.
pub(crate) proof fn lemma_stack_none(s: Seq<Tok>, k: int)
    requires
        0 <= k <= s.len(),
        delim_stack(s.subrange(0, k)) is None,
    ensures
        delim_stack(s) is None,
    decreases s.len() - k,
{
    if k == s.len() {
        assert(s.subrange(0, k) =~= s);
    } else {
        assert(s.subrange(0, k + 1).drop_last() =~= s.subrange(0, k));
        lemma_stack_none(s, k + 1);
    }
}

/// Whether every group of the tokens closes with its own kind.
fn check_kinds(b: &Vec<Token>) -> (r: bool)
    ensures
        r == kinds_match(toks(b@)),
{
    let ghost bv = toks(b@);
    let n = b.len();
    let mut stack: Vec<Delim> = Vec::new();
    let mut k: usize = 0;
    assert(bv.subrange(0, 0) =~= Seq::<Tok>::empty());
    while k < n
        invariant
            n == b@.len(),
            bv == toks(b@),
            k <= n,
            delim_stack(bv.subrange(0, k as int)) == Some(stack@),
        decreases n - k,
    {
        let ghost pre = bv.subrange(0, k + 1);
        assert(pre.drop_last() =~= bv.subrange(0, k as int));
        assert(pre.last() == bv[k as int]);
        match &b[k] {
            Token::Open(d) => {
                stack.push(*d);
            },
            Token::Close(d) => {
                let l = stack.len();
                if l == 0 || stack[l - 1] != *d {
                    proof {
                        lemma_stack_none(bv, k + 1);
                    }
                    return false;
                }
                let ghost st0 = stack@;
                stack.pop();
                proof {
                    assert(stack@ =~= st0.drop_last());
                }
            },
            _ => {},
        }
        k = k + 1;
    }
    assert(bv.subrange(0, n as int) =~= bv);
    if stack.len() == 0 {
        assert(stack@ =~= Seq::<Delim>::empty());
    }
    stack.len() == 0
}

/// Reads a block `{ .. }` at `pos`. Returns the tokens inside it and the
/// position after it.
pub fn parse_block(t: &Vec<Token>, pos: usize) -> (r: Option<(Vec<Token>, usize)>)
    ensures
        r matches Some((b, e)) ==> (nested(toks(b@)) && holds_at(toks(t@), pos as int, render_block(toks(b@)))
            && e == pos + render_block(toks(b@)).len()),
        forall|b: Seq<Tok>| nested(b) && #[trigger] holds_at(toks(t@), pos as int, render_block(b))
            ==> (r matches Some((c, e)) && toks(c@) == b),
{
    match scan_block(t, pos) {
        Some((b, e)) => {
            if check_kinds(&b) {
                Some((b, e))
            } else {
                None
            }
        },
        None => None,
    }
}

/// The keyword `query`.
pub open spec fn word_query() -> Seq<u8> {
    seq![113u8, 117u8, 101u8, 114u8, 121u8]
}

/// The keyword `fn`.
pub open spec fn word_fn() -> Seq<u8> {
    seq![102u8, 110u8]
}

fn text_query() -> (r: Vec<u8>)
    ensures
        r@ == word_query(),
{
    let r = vec![113u8, 117u8, 101u8, 114u8, 121u8];
    assert(r@ =~= word_query());
    r
}

fn text_fn() -> (r: Vec<u8>)
    ensures
        r@ == word_fn(),
{
    let r = vec![102u8, 110u8];
    assert(r@ =~= word_fn());
    r
}

/// A system declaration:
/// `Stage { [query!] { fn name(args) Kind=[..] .. { body } } }`.
pub struct SystemSpec {
    pub stage: Seq<u8>,
    pub wrapped: bool,
    pub func: Seq<u8>,
    pub args: Seq<ArgSpec>,
    pub args_trailing: bool,
    pub filters: Seq<FilterSpec>,
    pub body: Seq<Tok>,
}

/// The tokens of the query function: `fn name(args) filters { body }`.
pub open spec fn render_query(d: SystemSpec) -> Seq<Tok> {
    seq![Tok::Ident(word_fn()), Tok::Ident(d.func)]
        + render_delimited(Delim::Paren, d.args, arg_render(), d.args_trailing)
        + render_all(d.filters, filter_render())
        + render_block(d.body)
}

/// The tokens of a system declaration.
pub open spec fn render_system(d: SystemSpec) -> Seq<Tok> {
    seq![Tok::Ident(d.stage), Tok::Open(Delim::Brace)]
        + (if d.wrapped { seq![Tok::Ident(word_query()), Tok::Punct(BANG)] } else { Seq::empty() })
        + render_block(render_query(d))
        + seq![Tok::Close(Delim::Brace)]
}

/// A well-formed declaration: its lists are well-formed and its body is balanced.
pub open spec fn system_ok(d: SystemSpec) -> bool {
    &&& list_ok(d.args, d.args_trailing)
    &&& forall|i: int| 0 <= i < d.args.len() ==> arg_ok(#[trigger] d.args[i])
    &&& forall|i: int| 0 <= i < d.filters.len() ==> filter_ok(#[trigger] d.filters[i])
    &&& nested(d.body)
}

/// An identifier other than `query` (or the keyword `fn`) stands where
/// `query!` may.
pub open spec fn query_missing(tv: Seq<Tok>) -> bool {
    &&& tv.len() >= 3
    &&& tv[0] is Ident
    &&& tv[1] == Tok::Open(Delim::Brace)
    &&& tv[2] is Ident
    &&& tv[2] != Tok::Ident(word_query())
    &&& tv[2] != Tok::Ident(word_fn())
}

/// The tokens before an argument list at `q`: `Stage {`, then `query! {`
/// or `{`, then `fn name`.
pub open spec fn system_head(tv: Seq<Tok>, q: int) -> bool {
    &&& 5 <= q < tv.len()
    &&& tv[0] is Ident
    &&& tv[1] == Tok::Open(Delim::Brace)
    &&& (q == 7 && tv[2] == Tok::Ident(word_query()) && tv[3] == Tok::Punct(BANG)) || q == 5
    &&& tv[q - 3] == Tok::Open(Delim::Brace)
    &&& tv[q - 2] == Tok::Ident(word_fn())
    &&& tv[q - 1] is Ident
}

/// A system declaration.
pub struct SystemDecl {
    pub stage: Vec<u8>,
    pub wrapped: bool,
    pub func: Vec<u8>,
    pub args: Vec<ViewArg>,
    pub args_trailing: bool,
    pub filters: Vec<Filter>,
    pub body: Vec<Token>,
}

impl SystemDecl {
    pub open spec fn spec(&self) -> SystemSpec {
        SystemSpec {
            stage: self.stage@,
            wrapped: self.wrapped,
            func: self.func@,
            args: self.args@.map_values(|a: ViewArg| a.spec()),
            args_trailing: self.args_trailing,
            filters: self.filters@.map_values(|f: Filter| f.spec()),
            body: toks(self.body@),
        }
    }
}

/// Where each part of a declaration lies in its tokens.
proof fn lemma_system_layout(tv: Seq<Tok>, d: SystemSpec)
    requires
        tv == render_system(d),
    ensures
        ({
            let pre = if d.wrapped { 4int } else { 2int };
            let a = render_delimited(Delim::Paren, d.args, arg_render(), d.args_trailing);
            let fl = render_all(d.filters, filter_render());
            let bl = render_block(d.body);
            let e1 = pre + 3 + a.len();
            let e2 = e1 + fl.len();
            let e3 = e2 + bl.len();
            &&& tv.len() == e3 + 2
            &&& tv[0] == Tok::Ident(d.stage)
            &&& tv[1] == Tok::Open(Delim::Brace)
            &&& d.wrapped ==> tv[2] == Tok::Ident(word_query()) && tv[3] == Tok::Punct(BANG)
            &&& tv[pre] == Tok::Open(Delim::Brace)
            &&& tv[pre + 1] == Tok::Ident(word_fn())
            &&& tv[pre + 2] == Tok::Ident(d.func)
            &&& holds_at(tv, pre + 3, a)
            &&& holds_at(tv, e1, fl)
            &&& holds_at(tv, e2, bl)
            &&& tv[e2] == Tok::Open(Delim::Brace)
            &&& tv[e3] == Tok::Close(Delim::Brace)
            &&& tv[e3 + 1] == Tok::Close(Delim::Brace)
        }),
{
    let pre = if d.wrapped { 4int } else { 2int };
    let w = if d.wrapped { seq![Tok::Ident(word_query()), Tok::Punct(BANG)] } else { Seq::empty() };
    let a = render_delimited(Delim::Paren, d.args, arg_render(), d.args_trailing);
    let fl = render_all(d.filters, filter_render());
    let bl = render_block(d.body);
    let x1 = seq![Tok::Ident(d.stage), Tok::Open(Delim::Brace)] + w + seq![Tok::Open(Delim::Brace), Tok::Ident(word_fn()), Tok::Ident(d.func)];
    let x2 = seq![Tok::Close(Delim::Brace), Tok::Close(Delim::Brace)];
    assert(tv =~= x1 + a + fl + bl + x2);
    assert(x1.len() == pre + 3);
    assert(tv.subrange(0, tv.len() as int) =~= tv);
    lemma_holds_at_concat(tv, 0, x1 + a + fl + bl, x2);
    lemma_holds_at_concat(tv, 0, x1 + a + fl, bl);
    lemma_holds_at_concat(tv, 0, x1 + a, fl);
    lemma_holds_at_concat(tv, 0, x1, a);
    lemma_holds_at_index(tv, 0, x1, 0);
    lemma_holds_at_index(tv, 0, x1, 1);
    lemma_holds_at_index(tv, 0, x1, pre);
    lemma_holds_at_index(tv, 0, x1, pre + 1);
    lemma_holds_at_index(tv, 0, x1, pre + 2);
    if d.wrapped {
        lemma_holds_at_index(tv, 0, x1, 2);
        lemma_holds_at_index(tv, 0, x1, 3);
    }
    let e2 = pre + 3 + a.len() + fl.len();
    lemma_holds_at_index(tv, e2, bl, 0);
    lemma_holds_at_index(tv, e2 + bl.len(), x2, 0);
    lemma_holds_at_index(tv, e2 + bl.len(), x2, 1);
}

/// A declaration's tokens, put together from its parts.
proof fn lemma_system_assemble(tv: Seq<Tok>, d: SystemSpec)
    requires
        ({
            let pre = if d.wrapped { 4int } else { 2int };
            let a = render_delimited(Delim::Paren, d.args, arg_render(), d.args_trailing);
            let fl = render_all(d.filters, filter_render());
            let bl = render_block(d.body);
            let e1 = pre + 3 + a.len();
            let e2 = e1 + fl.len();
            let e3 = e2 + bl.len();
            &&& tv.len() == e3 + 2
            &&& tv[0] == Tok::Ident(d.stage)
            &&& tv[1] == Tok::Open(Delim::Brace)
            &&& d.wrapped ==> tv[2] == Tok::Ident(word_query()) && tv[3] == Tok::Punct(BANG)
            &&& tv[pre] == Tok::Open(Delim::Brace)
            &&& tv[pre + 1] == Tok::Ident(word_fn())
            &&& tv[pre + 2] == Tok::Ident(d.func)
            &&& holds_at(tv, pre + 3, a)
            &&& holds_at(tv, e1, fl)
            &&& holds_at(tv, e2, bl)
            &&& tv[e3] == Tok::Close(Delim::Brace)
            &&& tv[e3 + 1] == Tok::Close(Delim::Brace)
        }),
    ensures
        tv == render_system(d),
{
    let pre = if d.wrapped { 4int } else { 2int };
    let w = if d.wrapped { seq![Tok::Ident(word_query()), Tok::Punct(BANG)] } else { Seq::empty() };
    let a = render_delimited(Delim::Paren, d.args, arg_render(), d.args_trailing);
    let fl = render_all(d.filters, filter_render());
    let bl = render_block(d.body);
    let x1 = seq![Tok::Ident(d.stage), Tok::Open(Delim::Brace)] + w + seq![Tok::Open(Delim::Brace), Tok::Ident(word_fn()), Tok::Ident(d.func)];
    let x2 = seq![Tok::Close(Delim::Brace), Tok::Close(Delim::Brace)];
    assert(tv.subrange(0, pre + 3) =~= x1);
    let e3 = pre + 3 + a.len() + fl.len() + bl.len();
    assert(tv.subrange(e3, e3 + 2) =~= x2);
    lemma_holds_at_concat(tv, 0, x1, a);
    lemma_holds_at_concat(tv, 0, x1 + a, fl);
    lemma_holds_at_concat(tv, 0, x1 + a + fl, bl);
    lemma_holds_at_concat(tv, 0, x1 + a + fl + bl, x2);
    assert(render_system(d) =~= x1 + a + fl + bl + x2);
    assert(tv =~= tv.subrange(0, tv.len() as int));
}

/// Reads a system declaration from its tokens.
#[verifier::rlimit(60)]
#[verifier::spinoff_prover]
pub fn parse_system(t: &Vec<Token>) -> (r: Result<SystemDecl, ParseError>)
    ensures
        r matches Ok(d) ==> (system_ok(d.spec()) && toks(t@) == render_system(d.spec())),
        forall|d: SystemSpec| system_ok(d) && toks(t@) == render_system(d) ==> (r matches Ok(x) && x.spec() == d),
        query_missing(toks(t@)) <==> (r matches Err(x) && x == ParseError::ExpectedQuery),
        r matches Err(x) ==> x == ParseError::Malformed || x == ParseError::ExpectedQuery
            || (exists|q: int| #[trigger] arg_error(toks(t@), q, x)),
        forall|q: int, ys: Seq<ArgSpec>, x: ParseError| system_head(toks(t@), q) && #[trigger] list_fails(toks(t@), q, ys, x)
            ==> r == Err::<SystemDecl, ParseError>(x),
{
    let ghost tv = toks(t@);
    let n = t.len();
    let stage = match ident_at(t, 0) {
        Some(w) => w,
        None => {
            proof {
                assert forall|d: SystemSpec| system_ok(d) && tv == render_system(d) implies false by {
                    lemma_system_layout(tv, d);
                }
            }
            return Err(ParseError::Malformed);
        },
    };
    if !delim_at(t, 1, true, Delim::Brace) {
        proof {
            assert forall|d: SystemSpec| system_ok(d) && tv == render_system(d) implies false by {
                lemma_system_layout(tv, d);
            }
        }
        return Err(ParseError::Malformed);
    }
    let mut p: usize = 2;
    let mut wrapped = false;
    match ident_at(t, 2) {
        Some(w) => {
            if !same_text(&w, &text_query()) && !same_text(&w, &text_fn()) {
                proof {
                    assert forall|d: SystemSpec| system_ok(d) && tv == render_system(d) implies false by {
                        lemma_system_layout(tv, d);
                    }
                }
                return Err(ParseError::ExpectedQuery);
            }
            if !same_text(&w, &text_query()) || !punct_at(t, 3, BANG) {
                proof {
                    assert forall|d: SystemSpec| system_ok(d) && tv == render_system(d) implies false by {
                        lemma_system_layout(tv, d);
                    }
                }
                return Err(ParseError::Malformed);
            }
            wrapped = true;
            p = 4;
        },
        None => {},
    }
    proof {
        assert forall|d: SystemSpec| system_ok(d) && tv == render_system(d) implies d.wrapped == wrapped by {
            lemma_system_layout(tv, d);
        }
        assert forall|q: int| #[trigger] system_head(tv, q) implies q == p + 3 by {
            if q == 7 && !wrapped {
                assert(tv[2] is Ident);
            }
            if q == 5 && wrapped {
                assert(tv[2] == Tok::Open(Delim::Brace));
            }
        }
    }
    if !delim_at(t, p, true, Delim::Brace) {
        proof {
            assert forall|d: SystemSpec| system_ok(d) && tv == render_system(d) implies false by {
                lemma_system_layout(tv, d);
            }
        }
        return Err(ParseError::Malformed);
    }
    let ok_fn = match ident_at(t, p + 1) {
        Some(w) => same_text(&w, &text_fn()),
        None => false,
    };
    if !ok_fn {
        proof {
            assert forall|d: SystemSpec| system_ok(d) && tv == render_system(d) implies false by {
                lemma_system_layout(tv, d);
            }
        }
        return Err(ParseError::Malformed);
    }
    let func = match ident_at(t, p + 2) {
        Some(w) => w,
        None => {
            proof {
                assert forall|d: SystemSpec| system_ok(d) && tv == render_system(d) implies false by {
                    lemma_system_layout(tv, d);
                }
            }
            return Err(ParseError::Malformed);
        },
    };
    proof {
        assert(tv[p + 1] == Tok::Ident(word_fn()));
    }
    let (args, args_trailing, e1) = match parse_arg_list(t, p + 3) {
        Ok(x) => {
            proof {
                assert forall|q: int, ys: Seq<ArgSpec>, y: ParseError| system_head(tv, q) && #[trigger] list_fails(tv, q, ys, y)
                    implies false by {
                    assert(system_head(tv, q));
                }
            }
            x
        },
        Err(x) => {
            proof {
                assert forall|d: SystemSpec| system_ok(d) && tv == render_system(d) implies false by {
                    lemma_system_layout(tv, d);
                }
            }
            return Err(x);
        },
    };
    let (filters, e2) = match parse_filters(t, e1) {
        Some(x) => x,
        None => {
            proof {
                assert forall|d: SystemSpec| system_ok(d) && tv == render_system(d) implies false by {
                    lemma_system_layout(tv, d);
                    assert(d.args == args@.map_values(|a: ViewArg| a.spec()));
                }
            }
            return Err(ParseError::Malformed);
        },
    };
    let (body, e3) = match parse_block(t, e2) {
        Some(x) => x,
        None => {
            proof {
                assert forall|d: SystemSpec| system_ok(d) && tv == render_system(d) implies false by {
                    lemma_system_layout(tv, d);
                    assert(d.args == args@.map_values(|a: ViewArg| a.spec()));
                    assert(d.filters == filters@.map_values(|f: Filter| f.spec()));
                }
            }
            return Err(ParseError::Malformed);
        },
    };
    if !(delim_at(t, e3, false, Delim::Brace) && delim_at(t, e3 + 1, false, Delim::Brace) && e3 + 2 == n) {
        proof {
            assert forall|d: SystemSpec| system_ok(d) && tv == render_system(d) implies false by {
                lemma_system_layout(tv, d);
                assert(d.args == args@.map_values(|a: ViewArg| a.spec()));
                assert(d.filters == filters@.map_values(|f: Filter| f.spec()));
                assert(d.body == toks(body@));
            }
        }
        return Err(ParseError::Malformed);
    }
    let decl = SystemDecl { stage, wrapped, func, args, args_trailing, filters, body };
    proof {
        lemma_system_assemble(tv, decl.spec());
        assert forall|d: SystemSpec| system_ok(d) && tv == render_system(d) implies decl.spec() == d by {
            lemma_system_layout(tv, d);
            assert(d.args == args@.map_values(|a: ViewArg| a.spec()));
            assert(d.filters == filters@.map_values(|f: Filter| f.spec()));
            assert(d.body == toks(body@));
        }
    }
    Ok(decl)
}

} // verus!
