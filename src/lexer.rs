//! Splits tsml text into tokens, each with the byte range it was read from.
//!
//! The text is read character by character. Spaces, tabs and carriage
//! returns between tokens are skipped. A quoted string is a value; a
//! parenthesized, comma-separated list is a tag list; `- [name]` is a group
//! marker; `[`, `]`, `,`, newline, `>` and `:` stand for themselves. Anything
//! else, and a string, list or marker that is not closed on its line,
//! becomes an error token covering what was read, and reading goes on.
use vstd::prelude::*;
use crate::tree::{push_char, strs};

verus! {

/// A token of tsml.
#[derive(Debug)]
pub enum LexToken {
    /// A quoted string: a name or a symlink target.
    Value(String),
    OpenBracket,
    CloseBracket,
    /// A comma or a newline.
    Separator(char),
    /// A group marker `- [name]`, with the name.
    Group(String),
    /// A parenthesized list of tag names.
    Tags(Vec<String>),
    SymlinkArrow,
    /// The optional `:` before a directory's opening bracket.
    DoubleDots,
    /// Text that is not a token.
    LexError,
}

/// What a token holds, with its strings as character sequences.
pub enum TokenView {
    Value(Seq<char>),
    OpenBracket,
    CloseBracket,
    Separator(char),
    Group(Seq<char>),
    Tags(Seq<Seq<char>>),
    SymlinkArrow,
    DoubleDots,
    LexError,
}

impl View for LexToken {
    type V = TokenView;

    open spec fn view(&self) -> TokenView {
        match self {
            LexToken::Value(s) => TokenView::Value(s@),
            LexToken::OpenBracket => TokenView::OpenBracket,
            LexToken::CloseBracket => TokenView::CloseBracket,
            LexToken::Separator(c) => TokenView::Separator(*c),
            LexToken::Group(s) => TokenView::Group(s@),
            LexToken::Tags(v) => TokenView::Tags(strs(v@)),
            LexToken::SymlinkArrow => TokenView::SymlinkArrow,
            LexToken::DoubleDots => TokenView::DoubleDots,
            LexToken::LexError => TokenView::LexError,
        }
    }
}

/// A token with the byte range `start..end` of the text it was read from.
#[derive(Debug)]
pub struct SpannedLexToken {
    pub token: LexToken,
    pub start: usize,
    pub end: usize,
}

/// The number of bytes of a character in UTF-8.
pub open spec fn char_width(c: char) -> nat {
    if (c as u32) < 0x80 {
        1
    } else if (c as u32) < 0x800 {
        2
    } else if (c as u32) < 0x10000 {
        3
    } else {
        4
    }
}

/// The byte offset of the character at index `i`.
pub open spec fn byte_offset(cs: Seq<char>, i: int) -> nat
    decreases i,
{
    if i <= 0 || i > cs.len() {
        0
    } else {
        byte_offset(cs, i - 1) + char_width(cs[i - 1])
    }
}

pub open spec fn is_blank(c: char) -> bool {
    c == ' ' || c == '\t' || c == '\r'
}

/// The first index from `k` on whose character is `stop` or a newline, or
/// the length when there is none.
pub open spec fn scan_until(cs: Seq<char>, k: int, stop: char) -> int
    decreases cs.len() - k,
{
    if k < 0 || k >= cs.len() {
        cs.len() as int
    } else if cs[k] == stop || cs[k] == '\n' {
        k
    } else {
        scan_until(cs, k + 1, stop)
    }
}

/// The first index from `k` on whose character is not a space or a tab.
pub open spec fn skip_spaces(cs: Seq<char>, k: int) -> int
    decreases cs.len() - k,
{
    if k < 0 || k >= cs.len() {
        cs.len() as int
    } else if cs[k] == ' ' || cs[k] == '\t' {
        skip_spaces(cs, k + 1)
    } else {
        k
    }
}

pub open spec fn trim_start(s: Seq<char>) -> Seq<char>
    decreases s.len(),
{
    if s.len() > 0 && (s[0] == ' ' || s[0] == '\t') {
        trim_start(s.drop_first())
    } else {
        s
    }
}

pub open spec fn trim_end(s: Seq<char>) -> Seq<char>
    decreases s.len(),
{
    if s.len() > 0 && (s.last() == ' ' || s.last() == '\t') {
        trim_end(s.drop_last())
    } else {
        s
    }
}

/// The tag names of a tag list from index `k` on: the pieces between
/// commas, without surrounding spaces, empty ones left out.
pub open spec fn tag_list_from(s: Seq<char>, k: int) -> Seq<Seq<char>>
    decreases s.len() - k,
{
    if k < 0 || k > s.len() {
        seq![]
    } else {
        let j = scan_until(s, k, ',');
        let piece = trim_end(trim_start(s.subrange(k, j)));
        let rest = if k <= j < s.len() {
            tag_list_from(s, j + 1)
        } else {
            seq![]
        };
        if piece.len() == 0 {
            rest
        } else {
            seq![piece] + rest
        }
    }
}

/// The tag names of the text of a tag list.
pub open spec fn tag_list(s: Seq<char>) -> Seq<Seq<char>> {
    tag_list_from(s, 0)
}

/// The token that starts at index `i`, if any, and the index where it ends.
pub open spec fn next_token(cs: Seq<char>, i: int) -> (Option<TokenView>, int) {
    let c = cs[i];
    if is_blank(c) {
        (None, i + 1)
    } else if c == '[' {
        (Some(TokenView::OpenBracket), i + 1)
    } else if c == ']' {
        (Some(TokenView::CloseBracket), i + 1)
    } else if c == ',' || c == '\n' {
        (Some(TokenView::Separator(c)), i + 1)
    } else if c == '>' {
        (Some(TokenView::SymlinkArrow), i + 1)
    } else if c == ':' {
        (Some(TokenView::DoubleDots), i + 1)
    } else if c == '"' {
        let j = scan_until(cs, i + 1, '"');
        if j < cs.len() && cs[j] == '"' {
            (Some(TokenView::Value(cs.subrange(i + 1, j))), j + 1)
        } else {
            (Some(TokenView::LexError), j)
        }
    } else if c == '(' {
        let j = scan_until(cs, i + 1, ')');
        if j < cs.len() && cs[j] == ')' {
            (Some(TokenView::Tags(tag_list(cs.subrange(i + 1, j)))), j + 1)
        } else {
            (Some(TokenView::LexError), j)
        }
    } else if c == '-' {
        let b = skip_spaces(cs, i + 1);
        let j = scan_until(cs, b + 1, ']');
        if b < cs.len() && cs[b] == '[' && j < cs.len() && cs[j] == ']' {
            (Some(TokenView::Group(cs.subrange(b + 1, j))), j + 1)
        } else {
            (Some(TokenView::LexError), i + 1)
        }
    } else {
        (Some(TokenView::LexError), i + 1)
    }
}

proof fn lemma_scan_until(cs: Seq<char>, k: int, stop: char)
    requires
        0 <= k,
    ensures
        k <= scan_until(cs, k, stop) <= cs.len() || (k > cs.len() && scan_until(cs, k, stop)
            == cs.len()),
        forall|m: int| k <= m < scan_until(cs, k, stop) ==> cs[m] != stop && cs[m] != '\n',
        scan_until(cs, k, stop) < cs.len() ==> (cs[scan_until(cs, k, stop)] == stop
            || cs[scan_until(cs, k, stop)] == '\n'),
    decreases cs.len() - k,
{
    if k < cs.len() && !(cs[k] == stop || cs[k] == '\n') {
        lemma_scan_until(cs, k + 1, stop);
    }
}

proof fn lemma_skip_spaces(cs: Seq<char>, k: int)
    requires
        0 <= k,
    ensures
        k <= skip_spaces(cs, k) <= cs.len() || (k > cs.len() && skip_spaces(cs, k) == cs.len()),
    decreases cs.len() - k,
{
    if k < cs.len() && (cs[k] == ' ' || cs[k] == '\t') {
        lemma_skip_spaces(cs, k + 1);
    }
}

/// The tokens of the characters from index `i` on, each with its
/// character range.
pub open spec fn tokens_from(cs: Seq<char>, i: int) -> Seq<(TokenView, int, int)>
    decreases cs.len() - i,
{
    if i < 0 || i >= cs.len() {
        seq![]
    } else {
        let (t, e) = next_token(cs, i);
        if e <= i || e > cs.len() {
            seq![]
        } else {
            match t {
                Some(v) => seq![(v, i, e)] + tokens_from(cs, e),
                None => tokens_from(cs, e),
            }
        }
    }
}

/// The tokens of a text, with their ranges in characters.
pub open spec fn lex_spec(cs: Seq<char>) -> Seq<(TokenView, int, int)> {
    tokens_from(cs, 0)
}

proof fn lemma_byte_offset(cs: Seq<char>, i: int)
    requires
        0 <= i <= cs.len(),
    ensures
        byte_offset(cs, i) <= 4 * i,
    decreases i,
{
    if i > 0 {
        lemma_byte_offset(cs, i - 1);
    }
}

/// The characters of a text.
fn collect_chars(text: &str) -> (r: Vec<char>)
    ensures
        r@ == text@,
{
    let n = text.unicode_len();
    let mut r: Vec<char> = Vec::new();
    let mut i: usize = 0;
    while i < n
        invariant
            n == text@.len(),
            i <= n,
            r@ == text@.subrange(0, i as int),
        decreases n - i,
    {
        r.push(text.get_char(i));
        assert(text@.subrange(0, i + 1) == text@.subrange(0, i as int).push(text@[i as int]));
        i = i + 1;
    }
    assert(text@.subrange(0, n as int) == text@);
    r
}

fn find_stop(cs: &Vec<char>, k: usize, stop: char) -> (r: usize)
    requires
        k <= cs@.len(),
    ensures
        r == scan_until(cs@, k as int, stop),
        k <= r <= cs@.len(),
{
    let mut j = k;
    while j < cs.len() && cs[j] != stop && cs[j] != '\n'
        invariant
            k <= j <= cs@.len(),
            scan_until(cs@, k as int, stop) == scan_until(cs@, j as int, stop),
        decreases cs@.len() - j,
    {
        j = j + 1;
    }
    j
}

fn find_non_space(cs: &Vec<char>, k: usize) -> (r: usize)
    requires
        k <= cs@.len(),
    ensures
        r == skip_spaces(cs@, k as int),
        k <= r <= cs@.len(),
{
    let mut j = k;
    while j < cs.len() && (cs[j] == ' ' || cs[j] == '\t')
        invariant
            k <= j <= cs@.len(),
            skip_spaces(cs@, k as int) == skip_spaces(cs@, j as int),
        decreases cs@.len() - j,
    {
        j = j + 1;
    }
    j
}

/// The characters `from..to` as a string.
fn string_of(cs: &Vec<char>, from: usize, to: usize) -> (r: String)
    requires
        from <= to <= cs@.len(),
    ensures
        r@ == cs@.subrange(from as int, to as int),
{
    let mut r = String::new();
    let mut i = from;
    while i < to
        invariant
            from <= i <= to <= cs@.len(),
            r@ == cs@.subrange(from as int, i as int),
        decreases to - i,
    {
        push_char(&mut r, cs[i]);
        assert(cs@.subrange(from as int, i + 1) == cs@.subrange(from as int, i as int).push(cs@[i as int]));
        i = i + 1;
    }
    r
}

/// The characters `from..to` without the spaces and tabs at either end.
fn trimmed(cs: &Vec<char>, from: usize, to: usize) -> (r: String)
    requires
        from <= to <= cs@.len(),
    ensures
        r@ == trim_end(trim_start(cs@.subrange(from as int, to as int))),
{
    let mut a = from;
    while a < to && (cs[a] == ' ' || cs[a] == '\t')
        invariant
            from <= a <= to <= cs@.len(),
            trim_start(cs@.subrange(from as int, to as int)) == trim_start(
                cs@.subrange(a as int, to as int),
            ),
        decreases to - a,
    {
        assert(cs@.subrange(a as int, to as int).drop_first() == cs@.subrange(a + 1, to as int));
        a = a + 1;
    }
    assert(trim_start(cs@.subrange(a as int, to as int)) == cs@.subrange(a as int, to as int));
    let mut b = to;
    while b > a && (cs[b - 1] == ' ' || cs[b - 1] == '\t')
        invariant
            from <= a <= b <= to <= cs@.len(),
            trim_end(cs@.subrange(a as int, to as int)) == trim_end(cs@.subrange(a as int, b as int)),
        decreases b - a,
    {
        assert(cs@.subrange(a as int, b as int).drop_last() == cs@.subrange(a as int, b - 1));
        b = b - 1;
    }
    assert(trim_end(cs@.subrange(a as int, b as int)) == cs@.subrange(a as int, b as int));
    string_of(cs, a, b)
}

/// The tag names of the tag list text `from..to`.
fn tag_names(cs: &Vec<char>, from: usize, to: usize) -> (r: Vec<String>)
    requires
        from <= to <= cs@.len(),
    ensures
        strs(r@) == tag_list(cs@.subrange(from as int, to as int)),
{
    let ghost s = cs@.subrange(from as int, to as int);
    let sub = {
        let mut v: Vec<char> = Vec::new();
        let mut i = from;
        while i < to
            invariant
                from <= i <= to <= cs@.len(),
                v@ == cs@.subrange(from as int, i as int),
            decreases to - i,
        {
            v.push(cs[i]);
            assert(cs@.subrange(from as int, i + 1) == cs@.subrange(from as int, i as int).push(cs@[i as int]));
            i = i + 1;
        }
        v
    };
    let mut out: Vec<String> = Vec::new();
    let mut k: usize = 0;
    let mut more = true;
    while more
        invariant
            sub@ == s,
            k <= s.len(),
            more ==> strs(out@) + tag_list_from(s, k as int) == tag_list(s),
            !more ==> strs(out@) == tag_list(s),
        decreases s.len() - k + if more { 1int } else { 0int },
    {
        let j = find_stop(&sub, k, ',');
        let piece = trimmed(&sub, k, j);
        let ghost before = out@;
        let ghost rest = if j < s.len() { tag_list_from(s, j + 1) } else { seq![] };
        if piece.as_str().unicode_len() > 0 {
            out.push(piece);
            assert(strs(out@) == strs(before).push(piece@));
            assert(strs(out@) + rest == strs(before) + (seq![piece@] + rest));
        }
        if j < sub.len() {
            k = j + 1;
        } else {
            more = false;
            assert(strs(out@) + rest == strs(out@));
        }
    }
    out
}

fn char_width_of(c: char) -> (r: usize)
    ensures
        r == char_width(c),
{
    if (c as u32) < 0x80 {
        1
    } else if (c as u32) < 0x800 {
        2
    } else if (c as u32) < 0x10000 {
        3
    } else {
        4
    }
}

/// The views of an optional token.
pub open spec fn opt_view(t: Option<LexToken>) -> Option<TokenView> {
    match t {
        Some(t) => Some(t@),
        None => None,
    }
}

/// Reads the token that starts at index `i`.
fn read_token(cs: &Vec<char>, i: usize) -> (r: (Option<LexToken>, usize))
    requires
        i < cs@.len() <= usize::MAX / 4,
    ensures
        opt_view(r.0) == next_token(cs@, i as int).0,
        r.1 == next_token(cs@, i as int).1,
        i < r.1 <= cs@.len(),
{
    let c = cs[i];
    if c == ' ' || c == '\t' || c == '\r' {
        (None, i + 1)
    } else if c == '[' {
        (Some(LexToken::OpenBracket), i + 1)
    } else if c == ']' {
        (Some(LexToken::CloseBracket), i + 1)
    } else if c == ',' || c == '\n' {
        (Some(LexToken::Separator(c)), i + 1)
    } else if c == '>' {
        (Some(LexToken::SymlinkArrow), i + 1)
    } else if c == ':' {
        (Some(LexToken::DoubleDots), i + 1)
    } else if c == '"' {
        let j = find_stop(cs, i + 1, '"');
        if j < cs.len() && cs[j] == '"' {
            (Some(LexToken::Value(string_of(cs, i + 1, j))), j + 1)
        } else {
            (Some(LexToken::LexError), j)
        }
    } else if c == '(' {
        let j = find_stop(cs, i + 1, ')');
        if j < cs.len() && cs[j] == ')' {
            let names = tag_names(cs, i + 1, j);
            (Some(LexToken::Tags(names)), j + 1)
        } else {
            (Some(LexToken::LexError), j)
        }
    } else if c == '-' {
        let b = find_non_space(cs, i + 1);
        if b < cs.len() && cs[b] == '[' {
            let j = find_stop(cs, b + 1, ']');
            if j < cs.len() && cs[j] == ']' {
                (Some(LexToken::Group(string_of(cs, b + 1, j))), j + 1)
            } else {
                (Some(LexToken::LexError), i + 1)
            }
        } else {
            (Some(LexToken::LexError), i + 1)
        }
    } else {
        (Some(LexToken::LexError), i + 1)
    }
}

/// Splits a text into tokens, as `lex_spec` gives them, each with its byte
/// range in the text.
pub fn lex(text: &str) -> (r: Vec<SpannedLexToken>)
    requires
        text@.len() <= usize::MAX / 4,
    ensures
        r@.len() == lex_spec(text@).len(),
        forall|k: int|
            0 <= k < r@.len() ==> {
                &&& (#[trigger] r@[k]).token@ == lex_spec(text@)[k].0
                &&& r@[k].start == byte_offset(text@, lex_spec(text@)[k].1)
                &&& r@[k].end == byte_offset(text@, lex_spec(text@)[k].2)
            },
{
    let cs = collect_chars(text);
    let ghost all = lex_spec(text@);
    let ghost mut produced: Seq<(TokenView, int, int)> = seq![];
    let mut out: Vec<SpannedLexToken> = Vec::new();
    let mut i: usize = 0;
    let mut byte: usize = 0;
    while i < cs.len()
        invariant
            cs@ == text@,
            cs@.len() <= usize::MAX / 4,
            i <= cs@.len(),
            byte == byte_offset(cs@, i as int),
            produced + tokens_from(cs@, i as int) == all,
            out@.len() == produced.len(),
            forall|k: int|
                0 <= k < out@.len() ==> {
                    &&& (#[trigger] out@[k]).token@ == produced[k].0
                    &&& out@[k].start == byte_offset(cs@, produced[k].1)
                    &&& out@[k].end == byte_offset(cs@, produced[k].2)
                },
        decreases cs@.len() - i,
    {
        let (token, e) = read_token(&cs, i);
        let start = byte;
        let mut m = i;
        while m < e
            invariant
                i <= m <= e <= cs@.len(),
                cs@.len() <= usize::MAX / 4,
                byte == byte_offset(cs@, m as int),
            decreases e - m,
        {
            proof {
                lemma_byte_offset(cs@, m + 1);
            }
            byte = byte + char_width_of(cs[m]);
            m = m + 1;
        }
        match token {
            Some(t) => {
                let ghost v = t@;
                out.push(SpannedLexToken { token: t, start, end: byte });
                proof {
                    let old_produced = produced;
                    produced = produced.push((v, i as int, e as int));
                    assert(tokens_from(cs@, i as int) == seq![(v, i as int, e as int)] + tokens_from(
                        cs@,
                        e as int,
                    ));
                    assert(produced + tokens_from(cs@, e as int) =~= old_produced + tokens_from(
                        cs@,
                        i as int,
                    ));
                }
            },
            None => {},
        }
        i = e;
    }
    out
}

} // verus!
