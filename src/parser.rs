use vstd::prelude::*;

use crate::syntax::{lex, lex_from, Token, TokenSpan, Tokens};

verus! {

/// A compiled instruction: a symbol and a strictly positive count.
///
/// For a bracket the count is the distance, in instructions, to its partner.
#[derive(Copy, Clone, Eq, PartialEq, Debug, Structural)]
pub struct Op {
    pub t: Token,
    pub n: usize,
}

/// An instruction during compilation; brackets carry 0 until they are matched.
#[derive(Copy, Clone, Eq, PartialEq, Debug, Structural)]
pub struct Ir {
    pub t: TokenSpan,
    pub n: usize,
}

pub open spec fn is_bracket(t: Token) -> bool {
    t == Token::LBracket || t == Token::RBracket
}

/// Runs of equal non-bracket tokens merged into one instruction each.
pub open spec fn collapse_spec(ts: Seq<TokenSpan>) -> Seq<Ir>
    decreases ts.len(),
{
    if ts.len() == 0 {
        Seq::empty()
    } else {
        let prev = collapse_spec(ts.drop_last());
        let x = ts.last();
        if !is_bracket(x.token) && ts.len() >= 2 && ts[ts.len() - 2].token == x.token {
            prev.update(prev.len() - 1, Ir { t: prev.last().t, n: (prev.last().n + 1) as usize })
        } else {
            prev.push(Ir { t: x, n: if is_bracket(x.token) { 0 } else { 1 } })
        }
    }
}

/// The symbols of a list of instructions.
pub open spec fn toks(irs: Seq<Ir>) -> Seq<Token> {
    irs.map_values(|x: Ir| x.t.token)
}

proof fn lemma_collapse(ts: Seq<TokenSpan>, bound: int)
    requires
        ts.len() <= usize::MAX,
        forall|j: int| 0 <= j < ts.len() ==> #[trigger] ts[j].index < bound,
    ensures
        ts.len() > 0 ==> collapse_spec(ts).len() > 0 && collapse_spec(ts).last().t.token
            == ts.last().token,
        collapse_spec(ts).len() <= ts.len(),
        forall|k: int|
            0 <= k < collapse_spec(ts).len() ==> {
                let c = #[trigger] collapse_spec(ts)[k];
                &&& c.t.index < bound
                &&& is_bracket(c.t.token) ==> c.n == 0
                &&& !is_bracket(c.t.token) ==> 1 <= c.n <= ts.len()
            },
    decreases ts.len(),
{
    if ts.len() > 0 {
        let prev = ts.drop_last();
        lemma_collapse(prev, bound);
        let c = collapse_spec(ts);
        let p = collapse_spec(prev);
        assert forall|k: int| 0 <= k < c.len() implies {
            let x = #[trigger] c[k];
            &&& x.t.index < bound
            &&& is_bracket(x.t.token) ==> x.n == 0
            &&& !is_bracket(x.t.token) ==> 1 <= x.n <= ts.len()
        } by {
            if k < p.len() {
                assert(p[k] == p[k]);
            }
        }
    }
}

fn collapse(code: &[u8]) -> (irs: Vec<Ir>)
    ensures
        irs@ == collapse_spec(lex(code@)),
{
    let mut tokens = Tokens::new(code);
    let mut irs: Vec<Ir> = Vec::new();
    let ghost mut seen: Seq<TokenSpan> = Seq::empty();
    let code_len = code.len();
    proof {
        crate::syntax::lemma_lex_len(code@, 0);
    }
    loop
        invariant
            tokens.code() == code@,
            lex(code@) == seen + tokens.rest(),
            irs@ == collapse_spec(seen),
            lex(code@).len() <= code@.len(),
            code@.len() == code_len,
        decreases tokens.rest().len(),
    {
        let ghost before = seen;
        match tokens.next() {
            None => {
                assert(seen + tokens.rest() =~= seen);
                return irs;
            },
            Some(t) => {
                proof {
                    seen = seen.push(t);
                    assert(lex(code@) =~= seen + tokens.rest());
                    assert(seen.drop_last() =~= before);
                    assert(lex(code@).len() == seen.len() + tokens.rest().len());
                    lemma_collapse(before, usize::MAX as int + 1);
                }
                let len = irs.len();
                assert(seen.len() <= code@.len());
                if t.token != Token::LBracket && t.token != Token::RBracket && len > 0
                    && irs[len - 1].t.token == t.token {
                    let last = irs[len - 1];
                    irs.set(len - 1, Ir { t: last.t, n: last.n + 1 });
                } else {
                    let n: usize = if t.token == Token::LBracket || t.token == Token::RBracket {
                        0
                    } else {
                        1
                    };
                    irs.push(Ir { t, n });
                }
            },
        }
    }
}


/// Every count is positive and every jump stays inside the program.
pub open spec fn ops_wf(ops: Seq<Op>) -> bool {
    forall|k: int|
        0 <= k < ops.len() ==> {
            &&& (#[trigger] ops[k]).n > 0
            &&& ops[k].t == Token::LBracket ==> k + ops[k].n < ops.len()
            &&& ops[k].t == Token::RBracket ==> ops[k].n <= k
        }
}

proof fn lemma_compiled_wf(irs: Seq<Ir>, v: Seq<Op>)
    requires
        compiled_from(irs, v),
    ensures
        ops_wf(v),
{
    let s = toks(irs);
    let cut = irs.len() - v.len();
    assert forall|k: int| 0 <= k < v.len() && (#[trigger] v[k]).t == Token::RBracket implies v[k].n <= k by {
        let i = k + cut;
        let o = i - v[k].n;
        if o < cut {
            assert(s[0] == Token::LBracket);
            if o == 0 {
                lemma_partner_unique(s, 0, cut - 1, o, i);
            } else {
                assert(depth(s, o) > depth(s, 0));
                assert(depth(s, cut) == depth(s, 0));
                assert(depth(s, cut) > depth(s, o));
            }
        }
    }
}

/// Why a program does not compile.
#[derive(Copy, Clone, Eq, PartialEq, Debug, Structural)]
pub enum ErrorKind {
    /// A `[` that is never closed.
    UnmatchedBracket,
    /// A `]` with no open `[` before it.
    UnexpectedBracket,
}

/// The change in nesting depth that one symbol makes.
pub open spec fn delta(t: Token) -> int {
    if t == Token::LBracket {
        1
    } else if t == Token::RBracket {
        -1
    } else {
        0
    }
}

/// Opening minus closing brackets among the first `k` symbols.
pub open spec fn depth(s: Seq<Token>, k: int) -> int
    decreases k,
{
    if k <= 0 {
        0
    } else {
        depth(s, k - 1) + delta(s[k - 1])
    }
}

/// No prefix closes more brackets than it opens.
pub open spec fn never_negative(s: Seq<Token>) -> bool {
    forall|m: int| 0 <= m <= s.len() ==> #[trigger] depth(s, m) >= 0
}

/// Every bracket has a partner.
pub open spec fn balanced(s: Seq<Token>) -> bool {
    never_negative(s) && depth(s, s.len() as int) == 0
}

/// `s[j]` is the `]` that closes the `[` at `s[i]`: the first point after `i` at
/// which the depth falls back to what it was before `i`.
pub open spec fn matched(s: Seq<Token>, i: int, j: int) -> bool {
    &&& 0 <= i < j < s.len()
    &&& s[i] == Token::LBracket
    &&& s[j] == Token::RBracket
    &&& depth(s, j + 1) == depth(s, i)
    &&& forall|m: int| i < m <= j ==> #[trigger] depth(s, m) > depth(s, i)
}

/// `s[j]` is the first `]` that has no open `[` before it.
pub open spec fn unexpected_at(s: Seq<Token>, j: int) -> bool {
    &&& 0 <= j < s.len()
    &&& depth(s, j + 1) < 0
    &&& forall|m: int| 0 <= m <= j ==> #[trigger] depth(s, m) >= 0
}

/// `s[i]` is the outermost `[` that is never closed.
pub open spec fn unmatched_at(s: Seq<Token>, i: int) -> bool {
    &&& never_negative(s)
    &&& 0 <= i < s.len()
    &&& s[i] == Token::LBracket
    &&& depth(s, i) == 0
    &&& forall|m: int| i < m <= s.len() ==> #[trigger] depth(s, m) > 0
}

/// `out` is `irs` with every bracket's count set to the distance to its partner.
pub open spec fn resolved(irs: Seq<Ir>, out: Seq<Ir>) -> bool {
    let s = toks(irs);
    &&& out.len() == irs.len()
    &&& forall|k: int|
        0 <= k < irs.len() ==> {
            &&& (#[trigger] out[k]).t == irs[k].t
            &&& !is_bracket(s[k]) ==> out[k].n == irs[k].n
            &&& s[k] == Token::LBracket ==> matched(s, k, k + out[k].n)
            &&& s[k] == Token::RBracket ==> matched(s, k - out[k].n, k)
        }
}

/// Brackets carry 0, other instructions a positive count.
pub open spec fn fresh(irs: Seq<Ir>) -> bool {
    forall|k: int|
        0 <= k < irs.len() ==> (is_bracket((#[trigger] irs[k]).t.token) <==> irs[k].n == 0)
}

/// Matches every bracket of `irs` with its partner, or finds the first that has none.
///
/// On failure, the error names the index of the offending bracket in `irs`.
fn calculate_jmp(irs: &mut Vec<Ir>) -> (r: Result<(), (ErrorKind, usize)>)
    requires
        fresh(old(irs)@),
    ensures
        final(irs)@.len() == old(irs)@.len(),
        forall|m: int| 0 <= m < old(irs)@.len() ==> (#[trigger] final(irs)@[m]).t == old(irs)@[m].t,
        r is Ok <==> balanced(toks(old(irs)@)),
        r is Ok ==> resolved(old(irs)@, final(irs)@),
        r matches Err((ErrorKind::UnexpectedBracket, j)) ==> unexpected_at(toks(old(irs)@), j as int),
        r matches Err((ErrorKind::UnmatchedBracket, i)) ==> unmatched_at(toks(old(irs)@), i as int),
{
    let ghost orig = irs@;
    let ghost s = toks(orig);
    let mut stack: Vec<usize> = Vec::new();
    let len = irs.len();
    assert forall|m: int| 0 <= m < len implies #[trigger] s[m] == orig[m].t.token by {}
    let mut k: usize = 0;
    while k < len
        invariant
            len == irs@.len() == orig.len() == s.len(),
            0 <= k <= len,
            fresh(orig),
            s == toks(orig),
            orig == old(irs)@,
            forall|m: int| 0 <= m < len ==> #[trigger] s[m] == orig[m].t.token,
            forall|m: int| 0 <= m < len ==> (#[trigger] irs@[m]).t == orig[m].t,
            forall|m: int| 0 <= m < len && (k <= m || !is_bracket(s[m])) ==> #[trigger] irs@[m] == orig[m],
            stack@.len() == depth(s, k as int),
            forall|m: int| 0 <= m <= k ==> #[trigger] depth(s, m) >= 0,
            forall|p: int|
                0 <= p < stack@.len() ==> {
                    let i = #[trigger] stack@[p] as int;
                    &&& i < k
                    &&& s[i] == Token::LBracket
                    &&& depth(s, i) == p
                    &&& irs@[i].n == 0
                },
            forall|m: int|
                0 <= m < k && s[m] == Token::LBracket && (#[trigger] irs@[m]).n == 0 ==> forall|
                    x: int,
                | m < x <= k ==> #[trigger] depth(s, x) > depth(s, m),
            forall|m: int|
                0 <= m < k && s[m] == Token::LBracket && (#[trigger] irs@[m]).n != 0 ==> matched(
                    s,
                    m,
                    m + irs@[m].n,
                ) && m + irs@[m].n < k,
            forall|m: int|
                0 <= m < k && s[m] == Token::RBracket ==> (#[trigger] irs@[m]).n <= m && matched(
                    s,
                    m - irs@[m].n,
                    m,
                ),
        decreases len - k,
    {
        let ghost before = irs@;
        let ghost kk = k as int;
        assert(depth(s, kk + 1) == depth(s, kk) + delta(s[kk]));
        assert(s[kk] == irs@[kk].t.token);
        match irs[k].t.token {
            Token::LBracket => {
                stack.push(k);
            },
            Token::RBracket => {
                if stack.len() == 0 {
                    assert(depth(s, kk + 1) < 0);
                    assert(!never_negative(s));
                    return Err((ErrorKind::UnexpectedBracket, k));
                }
                let i = stack.pop().unwrap();
                let ghost ii = i as int;
                assert(stack@.len() == depth(s, kk) - 1);
                assert(depth(s, ii) == stack@.len());
                assert forall|m: int| ii < m <= kk implies #[trigger] depth(s, m) > depth(s, ii) by {
                    assert(s[ii] == Token::LBracket && irs@[ii].n == 0);
                }
                assert(matched(s, ii, kk));
                let a = irs[i];
                irs.set(i, Ir { t: a.t, n: k - i });
                let b = irs[k];
                irs.set(k, Ir { t: b.t, n: k - i });
                assert forall|m: int|
                    0 <= m < kk + 1 && s[m] == Token::LBracket && (#[trigger] irs@[m]).n
                        == 0 implies forall|x: int| m < x <= kk + 1 ==> #[trigger] depth(s, x) > depth(s, m) by {
                    assert(before[m].n == 0);
                    assert(m != ii);
                    if m < ii {
                        assert(depth(s, ii) > depth(s, m));
                    } else {
                        assert(depth(s, m) > depth(s, ii));
                        assert(depth(s, kk) > depth(s, m));
                    }
                }
            },
            _ => {},
        }
        k = k + 1;
    }
    if stack.len() > 0 {
        let i = stack[0];
        assert(never_negative(s));
        return Err((ErrorKind::UnmatchedBracket, i));
    }
    assert forall|m: int| 0 <= m < len && s[m] == Token::LBracket implies (#[trigger] irs@[m]).n != 0 by {
        if irs@[m].n == 0 {
            assert(depth(s, len as int) > depth(s, m));
        }
    }
    Ok(())
}


/// A compile error, with what a caller needs to point at the offending bracket.
#[derive(Debug)]
pub struct Error {
    pub kind: ErrorKind,
    /// Byte offset of the offending bracket in the source.
    pub index: usize,
    /// Line of the bracket, counted from 1.
    pub line: usize,
    /// Column of the bracket: 1 plus its distance from the last newline before it.
    pub col: usize,
    /// Position of the bracket within `code`.
    pub arrow: usize,
    /// The bracket's line, trimmed, with tabs widened to four spaces.
    pub code: String,
}

pub open spec fn is_space(b: u8) -> bool {
    b == 32 || b == 9 || b == 10 || b == 12 || b == 13
}

pub open spec fn count_newlines(s: Seq<u8>) -> int
    decreases s.len(),
{
    if s.len() == 0 {
        0
    } else {
        count_newlines(s.drop_last()) + if s.last() == 10 { 1int } else { 0 }
    }
}

/// Index of the last newline of `s`, or 0 if it has none.
pub open spec fn last_newline(s: Seq<u8>) -> int
    decreases s.len(),
{
    if s.len() == 0 {
        0
    } else if s.last() == 10 {
        s.len() - 1
    } else {
        last_newline(s.drop_last())
    }
}

/// Index of the first newline of `s`, or its length if it has none.
pub open spec fn first_newline(s: Seq<u8>) -> int
    decreases s.len(),
{
    if s.len() == 0 {
        0
    } else {
        let p = first_newline(s.drop_last());
        if p < s.len() - 1 {
            p
        } else if s.last() == 10 {
            s.len() - 1
        } else {
            s.len() as int
        }
    }
}

/// Index of the first byte of `s` that is not white space, or its length.
pub open spec fn first_non_space(s: Seq<u8>) -> int
    decreases s.len(),
{
    if s.len() == 0 {
        0
    } else {
        let p = first_non_space(s.drop_last());
        if p < s.len() - 1 {
            p
        } else if !is_space(s.last()) {
            s.len() - 1
        } else {
            s.len() as int
        }
    }
}

/// Index just past the last byte of `s` that is not white space, or 0.
pub open spec fn end_non_space(s: Seq<u8>) -> int
    decreases s.len(),
{
    if s.len() == 0 {
        0
    } else if !is_space(s.last()) {
        s.len() as int
    } else {
        end_non_space(s.drop_last())
    }
}

/// `s` with each tab replaced by four spaces.
pub open spec fn expand_tabs(s: Seq<u8>) -> Seq<u8>
    decreases s.len(),
{
    if s.len() == 0 {
        Seq::empty()
    } else {
        expand_tabs(s.drop_last()) + if s.last() == 9 {
            seq![32u8, 32u8, 32u8, 32u8]
        } else {
            seq![s.last()]
        }
    }
}

/// What `String::from_utf8_lossy` makes of a byte string.
pub uninterp spec fn utf8_lossy(b: Seq<u8>) -> Seq<char>;

/// Relies on `String::from_utf8_lossy`, which depends on the bytes alone.
#[verifier::external_body]
fn lossy(b: &[u8]) -> (r: String)
    ensures
        r@ == utf8_lossy(b@),
{
    String::from_utf8_lossy(b).into_owned()
}

/// `e` describes a bracket of kind `kind` at offset `pos` of `code`.
pub open spec fn describes(e: Error, kind: ErrorKind, pos: int, code: Seq<u8>) -> bool {
    let before = code.subrange(0, pos);
    let left = last_newline(before);
    let right = pos + first_newline(code.subrange(pos, code.len() as int));
    let text = code.subrange(left, right);
    let lead = if first_non_space(text) == text.len() {
        0
    } else {
        first_non_space(text)
    };
    let buf = expand_tabs(text.subrange(lead, text.len() as int));
    let at = pos - left;
    let end = if end_non_space(buf) == 0 {
        buf.len() as int
    } else {
        end_non_space(buf)
    };
    &&& e.kind == kind
    &&& e.index == pos
    &&& e.line == 1 + count_newlines(before)
    &&& e.col == 1 + pos - left
    &&& e.arrow == if lead <= at < text.len() {
        expand_tabs(text.subrange(lead, at)).len() as int
    } else {
        0
    }
    &&& e.code@ == utf8_lossy(buf.subrange(0, end))
}

proof fn lemma_scan_bounds(s: Seq<u8>)
    ensures
        0 <= last_newline(s) <= s.len(),
        s.len() > 0 ==> last_newline(s) < s.len(),
        0 <= first_newline(s) <= s.len(),
        0 <= first_non_space(s) <= s.len(),
        0 <= end_non_space(s) <= s.len(),
        0 <= count_newlines(s) <= s.len(),
        expand_tabs(s).len() <= 4 * s.len(),
    decreases s.len(),
{
    if s.len() > 0 {
        lemma_scan_bounds(s.drop_last());
    }
}

impl Error {
    /// Describes a bracket of kind `kind` at offset `pos` of `code`.
    fn new(kind: ErrorKind, pos: usize, code: &[u8]) -> (e: Self)
        requires
            pos < code@.len(),
        ensures
            describes(e, kind, pos as int, code@),
    {
        let len = code.len();
        let ghost c = code@;
        let mut line: usize = 1;
        let mut left: usize = 0;
        let mut i: usize = 0;
        while i < pos
            invariant
                pos < len == c.len(),
                c == code@,
                i <= pos,
                line == 1 + count_newlines(c.subrange(0, i as int)),
                left == last_newline(c.subrange(0, i as int)),
                line <= i + 1,
            decreases pos - i,
        {
            proof {
                assert(c.subrange(0, i + 1).drop_last() =~= c.subrange(0, i as int));
                lemma_scan_bounds(c.subrange(0, i as int));
            }
            if code[i] == 10 {
                line = line + 1;
                left = i;
            }
            i = i + 1;
        }
        proof {
            lemma_scan_bounds(c.subrange(0, pos as int));
        }
        let mut off: usize = 0;
        let mut j: usize = pos;
        while j < len
            invariant
                pos <= j <= len == c.len(),
                c == code@,
                off == first_newline(c.subrange(pos as int, j as int)),
                off <= j - pos,
            decreases len - j,
        {
            proof {
                assert(c.subrange(pos as int, j + 1).drop_last() =~= c.subrange(pos as int, j as int));
            }
            if off == j - pos && code[j] != 10 {
                off = j - pos + 1;
            }
            j = j + 1;
        }
        let right = pos + off;
        let col = 1 + pos - left;
        let ghost text = c.subrange(left as int, right as int);
        let width = right - left;
        let mut a: usize = 0;
        let mut t: usize = 0;
        while t < width
            invariant
                left <= pos <= right <= len == c.len(),
                c == code@,
                width == right - left,
                text == c.subrange(left as int, right as int),
                t <= width,
                a == first_non_space(text.subrange(0, t as int)),
                a <= t,
            decreases width - t,
        {
            proof {
                assert(text.subrange(0, t + 1).drop_last() =~= text.subrange(0, t as int));
            }
            if a == t && is_space_byte(code[left + t]) {
                a = t + 1;
            }
            t = t + 1;
        }
        assert(text.subrange(0, width as int) =~= text);
        let lead = if a == width {
            0
        } else {
            a
        };
        let mut buf: Vec<u8> = Vec::new();
        let mut arrow: usize = 0;
        let mut t: usize = lead;
        while t < width
            invariant
                left <= pos <= right <= len == c.len(),
                c == code@,
                width == right - left,
                text == c.subrange(left as int, right as int),
                lead <= t <= width,
                buf@ == expand_tabs(text.subrange(lead as int, t as int)),
                arrow == if lead <= pos - left < t {
                    expand_tabs(text.subrange(lead as int, pos - left)).len() as int
                } else {
                    0
                },
            decreases width - t,
        {
            proof {
                assert(text.subrange(lead as int, t + 1).drop_last() =~= text.subrange(
                    lead as int,
                    t as int,
                ));
            }
            let b = code[left + t];
            if t + left == pos {
                arrow = buf.len();
            }
            if b == 9 {
                buf.push(32);
                buf.push(32);
                buf.push(32);
                buf.push(32);
            } else {
                buf.push(b);
            }
            proof {
                assert(buf@ =~= expand_tabs(text.subrange(lead as int, t + 1)));
            }
            t = t + 1;
        }
        let blen = buf.len();
        let mut e: usize = 0;
        let mut x: usize = 0;
        while x < blen
            invariant
                blen == buf@.len(),
                x <= blen,
                e == end_non_space(buf@.subrange(0, x as int)),
                e <= x,
            decreases blen - x,
        {
            proof {
                assert(buf@.subrange(0, x + 1).drop_last() =~= buf@.subrange(0, x as int));
            }
            if !is_space_byte(buf[x]) {
                e = x + 1;
            }
            x = x + 1;
        }
        assert(buf@.subrange(0, blen as int) =~= buf@);
        let end = if e == 0 {
            blen
        } else {
            e
        };
        buf.truncate(end);
        Error { kind, index: pos, line, col, arrow, code: lossy(buf.as_slice()) }
    }

    fn unexpected_bracket(pos: usize, code: &[u8]) -> (e: Self)
        requires
            pos < code@.len(),
        ensures
            describes(e, ErrorKind::UnexpectedBracket, pos as int, code@),
    {
        Self::new(ErrorKind::UnexpectedBracket, pos, code)
    }

    fn unmatched_bracket(pos: usize, code: &[u8]) -> (e: Self)
        requires
            pos < code@.len(),
        ensures
            describes(e, ErrorKind::UnmatchedBracket, pos as int, code@),
    {
        Self::new(ErrorKind::UnmatchedBracket, pos, code)
    }
}

fn is_space_byte(b: u8) -> (r: bool)
    ensures
        r == is_space(b),
{
    b == 32 || b == 9 || b == 10 || b == 12 || b == 13
}


/// `v` is what compiling the instructions `irs`, whose brackets all match, gives:
/// every bracket carries the distance to its partner, and a loop that opens the
/// program, which can never run, is left out together with its brackets.
pub open spec fn compiled_from(irs: Seq<Ir>, v: Seq<Op>) -> bool {
    let s = toks(irs);
    let cut = irs.len() - v.len();
    &&& v.len() <= irs.len()
    &&& if s.len() > 0 && s[0] == Token::LBracket {
        matched(s, 0, cut - 1)
    } else {
        cut == 0
    }
    &&& forall|k: int|
        0 <= k < v.len() ==> {
            let i = k + cut;
            &&& (#[trigger] v[k]).t == s[i]
            &&& v[k].n > 0
            &&& !is_bracket(s[i]) ==> v[k].n == irs[i].n
            &&& s[i] == Token::LBracket ==> matched(s, i, i + v[k].n)
            &&& s[i] == Token::RBracket ==> matched(s, i - v[k].n, i)
        }
}

/// `e` is the error that compiling `code` fails with: the first `]` that closes
/// nothing, or else the outermost `[` that is never closed.
pub open spec fn bracket_error(code: Seq<u8>, e: Error) -> bool {
    let irs = collapse_spec(lex(code));
    let s = toks(irs);
    ||| exists|j: int|
        unexpected_at(s, j) && describes(e, ErrorKind::UnexpectedBracket, irs[j].t.index as int, code)
    ||| exists|i: int|
        unmatched_at(s, i) && describes(e, ErrorKind::UnmatchedBracket, irs[i].t.index as int, code)
}

/// What compiling `code` gives.
pub open spec fn compiles_to(code: Seq<u8>, r: Result<Seq<Op>, Error>) -> bool {
    let irs = collapse_spec(lex(code));
    &&& r is Ok <==> balanced(toks(irs))
    &&& r matches Ok(v) ==> compiled_from(irs, v)
    &&& r matches Err(e) ==> bracket_error(code, e)
}

/// Compiles source bytes into a program, or reports its first bracket error.
pub fn ops(code: &[u8]) -> (r: Result<Vec<Op>, Error>)
    ensures
        compiles_to(
            code@,
            match r {
                Ok(v) => Ok(v@),
                Err(e) => Err(e),
            },
        ),
        r matches Ok(v) ==> ops_wf(v@),
{
    let mut irs = collapse(code);
    let ghost orig = irs@;
    let ghost s = toks(orig);
    let code_len = code.len();
    proof {
        crate::syntax::lemma_lex_len(code@, 0);
        assert(lex(code@).len() <= code_len);
        lemma_collapse(lex(code@), code@.len() as int);
    }
    if irs.len() == 0 {
        let v: Vec<Op> = Vec::new();
        assert(balanced(s));
        assert(compiled_from(orig, v@));
        proof {
            lemma_compiled_wf(orig, v@);
        }
        return Ok(v);
    }
    match calculate_jmp(&mut irs) {
        Err((kind, i)) => {
            let ir = irs[i];
            assert(ir.t == orig[i as int].t);
            match kind {
                ErrorKind::UnexpectedBracket => {
                    return Err(Error::unexpected_bracket(ir.t.index, code));
                },
                ErrorKind::UnmatchedBracket => {
                    return Err(Error::unmatched_bracket(ir.t.index, code));
                },
            }
        },
        Ok(()) => {},
    }
    let len = irs.len();
    assert(s[0] == irs@[0].t.token);
    let cutoff: usize = if irs[0].t.token == Token::LBracket {
        assert(matched(s, 0, irs@[0].n as int));
        irs[0].n + 1
    } else {
        0
    };
    let mut v: Vec<Op> = Vec::new();
    let mut k: usize = cutoff;
    while k < len
        invariant
            cutoff <= k <= len == irs@.len() == orig.len(),
            s == toks(orig),
            fresh(orig),
            resolved(orig, irs@),
            v@.len() == k - cutoff,
            forall|q: int|
                0 <= q < v@.len() ==> {
                    let i = q + cutoff;
                    &&& (#[trigger] v@[q]).t == s[i]
                    &&& v@[q].n == irs@[i].n
                },
        decreases len - k,
    {
        let ir = irs[k];
        v.push(Op { t: ir.t.token, n: ir.n });
        k = k + 1;
    }
    assert forall|q: int| 0 <= q < v@.len() implies (#[trigger] v@[q]).n > 0 by {
        let i = q + cutoff;
        assert(irs@[i].t == orig[i].t);
        assert(s[i] == orig[i].t.token);
    }
    assert(compiled_from(orig, v@));
    proof {
        lemma_compiled_wf(orig, v@);
    }
    Ok(v)
}


proof fn lemma_partner_unique(s: Seq<Token>, i1: int, j1: int, i2: int, j2: int)
    requires
        matched(s, i1, j1),
        matched(s, i2, j2),
        i1 == i2 || j1 == j2,
    ensures
        i1 == i2 && j1 == j2,
{
    if i1 == i2 {
        if j1 < j2 {
            assert(depth(s, j1 + 1) > depth(s, i2));
        } else if j2 < j1 {
            assert(depth(s, j2 + 1) > depth(s, i1));
        }
    } else {
        if i1 < i2 {
            assert(depth(s, i2) > depth(s, i1));
        } else {
            assert(depth(s, i1) > depth(s, i2));
        }
    }
}

proof fn lemma_error_unique(s: Seq<Token>, a: int, b: int, a_unexpected: bool, b_unexpected: bool)
    requires
        if a_unexpected { unexpected_at(s, a) } else { unmatched_at(s, a) },
        if b_unexpected { unexpected_at(s, b) } else { unmatched_at(s, b) },
    ensures
        a == b && a_unexpected == b_unexpected,
{
    if a_unexpected && b_unexpected {
        if a < b {
            assert(depth(s, a + 1) >= 0);
        } else if b < a {
            assert(depth(s, b + 1) >= 0);
        }
    } else if a_unexpected {
        assert(depth(s, a + 1) >= 0);
    } else if b_unexpected {
        assert(depth(s, b + 1) >= 0);
    } else {
        if a < b {
            assert(depth(s, b) > 0);
        } else if b < a {
            assert(depth(s, a) > 0);
        }
    }
}

/// Compiling is a function of the source alone: two results that both meet the
/// contract of `ops` on the same bytes are the same program, or the same error.
pub proof fn lemma_compile_deterministic(
    code: Seq<u8>,
    r1: Result<Seq<Op>, Error>,
    r2: Result<Seq<Op>, Error>,
)
    requires
        compiles_to(code, r1),
        compiles_to(code, r2),
    ensures
        r1 is Ok <==> r2 is Ok,
        r1 is Ok ==> r1 == r2,
        r1 matches Err(e1) ==> r2 matches Err(e2) && e1.kind == e2.kind && e1.index == e2.index
            && e1.line == e2.line && e1.col == e2.col && e1.arrow == e2.arrow && e1.code@
            == e2.code@,
{
    let irs = collapse_spec(lex(code));
    let s = toks(irs);
    match (r1, r2) {
        (Ok(v1), Ok(v2)) => {
            let c1 = irs.len() - v1.len();
            let c2 = irs.len() - v2.len();
            if s.len() > 0 && s[0] == Token::LBracket {
                lemma_partner_unique(s, 0, c1 - 1, 0, c2 - 1);
            }
            assert forall|k: int| 0 <= k < v1.len() implies v1[k] == v2[k] by {
                let i = k + c1;
                assert(v1[k].t == s[i] && v2[k].t == s[i]);
                if s[i] == Token::LBracket {
                    lemma_partner_unique(s, i, i + v1[k].n, i, i + v2[k].n);
                } else if s[i] == Token::RBracket {
                    lemma_partner_unique(s, i - v1[k].n, i, i - v2[k].n, i);
                }
            }
            assert(v1 =~= v2);
        },
        (Err(e1), Err(e2)) => {
            let ja = choose|j: int|
                (unexpected_at(s, j) && describes(e1, ErrorKind::UnexpectedBracket, irs[j].t.index as int, code))
                || (unmatched_at(s, j) && describes(e1, ErrorKind::UnmatchedBracket, irs[j].t.index as int, code));
            let jb = choose|j: int|
                (unexpected_at(s, j) && describes(e2, ErrorKind::UnexpectedBracket, irs[j].t.index as int, code))
                || (unmatched_at(s, j) && describes(e2, ErrorKind::UnmatchedBracket, irs[j].t.index as int, code));
            let ua = unexpected_at(s, ja) && describes(e1, ErrorKind::UnexpectedBracket, irs[ja].t.index as int, code);
            let ub = unexpected_at(s, jb) && describes(e2, ErrorKind::UnexpectedBracket, irs[jb].t.index as int, code);
            lemma_error_unique(s, ja, jb, ua, ub);
        },
        _ => {},
    }
}


proof fn lemma_lex_increments(code: Seq<u8>, i: int)
    requires
        0 <= i <= code.len() <= usize::MAX,
        forall|j: int| 0 <= j < code.len() ==> #[trigger] code[j] == 43u8,
    ensures
        lex_from(code, i) == Seq::new(
            (code.len() - i) as nat,
            |k: int| TokenSpan { token: Token::Add, index: (i + k) as usize },
        ),
    decreases code.len() - i,
{
    if i < code.len() {
        lemma_lex_increments(code, i + 1);
        assert(lex_from(code, i) =~= Seq::new(
            (code.len() - i) as nat,
            |k: int| TokenSpan { token: Token::Add, index: (i + k) as usize },
        ));
    } else {
        assert(lex_from(code, i) =~= Seq::new(
            (code.len() - i) as nat,
            |k: int| TokenSpan { token: Token::Add, index: (i + k) as usize },
        ));
    }
}

proof fn lemma_collapse_run(ts: Seq<TokenSpan>)
    requires
        1 <= ts.len() <= usize::MAX,
        forall|j: int| 0 <= j < ts.len() ==> (#[trigger] ts[j]).token == Token::Add,
    ensures
        collapse_spec(ts) == seq![Ir { t: ts[0], n: ts.len() as usize }],
    decreases ts.len(),
{
    if ts.len() > 1 {
        lemma_collapse_run(ts.drop_last());
        assert(collapse_spec(ts) =~= seq![Ir { t: ts[0], n: ts.len() as usize }]);
    } else {
        assert(collapse_spec(ts.drop_last()) =~= Seq::<Ir>::empty());
        assert(collapse_spec(ts) =~= seq![Ir { t: ts[0], n: ts.len() as usize }]);
    }
}

/// `n` increments in a row, and nothing else, compile to one instruction that
/// adds `n`.
pub proof fn lemma_compile_increments(code: Seq<u8>, r: Result<Seq<Op>, Error>)
    requires
        1 <= code.len() <= usize::MAX,
        forall|j: int| 0 <= j < code.len() ==> #[trigger] code[j] == 43u8,
        compiles_to(code, r),
    ensures
        r == Ok::<Seq<Op>, Error>(seq![Op { t: Token::Add, n: code.len() as usize }]),
{
    lemma_lex_increments(code, 0);
    let ts = lex(code);
    assert forall|j: int| 0 <= j < ts.len() implies (#[trigger] ts[j]).token == Token::Add by {}
    lemma_collapse_run(ts);
    let irs = collapse_spec(ts);
    let s = toks(irs);
    assert(s =~= seq![Token::Add]);
    assert(s[0] == Token::Add);
    assert(depth(s, 0) == 0);
    assert(depth(s, 1) == 0);
    assert forall|m: int| 0 <= m <= s.len() implies #[trigger] depth(s, m) >= 0 by {}
    assert(balanced(s));
    let v = r->Ok_0;
    assert(v[0].t == s[0]);
    assert(v =~= seq![Op { t: Token::Add, n: code.len() as usize }]);
}

} // verus!
