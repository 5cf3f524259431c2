//! Parsing of plain-text grey-map terrain data.

use vstd::prelude::*;

use vstd::std_specs::iter::IteratorSpec;

use crate::grid::DIM_LIMIT;
use crate::terrain::{Terrain, Tile, TileType, HEIGHT_LIMIT};

verus! {

broadcast use vstd::string::axiom_spec_iter, vstd::string::next_postcondition;

/// Which number of the file a parse error is about.
#[derive(PartialEq, Debug)]
pub enum Context {
    XDimension,
    YDimension,
    MaxHeight,
    Height,
}

/// Why a grey map failed to parse.
#[derive(PartialEq, Debug)]
pub enum ParseError {
    InvalidMagicNumber(String),
    EmptyFile,
    InvalidNumber { context: Context, error: String },
    MissingXDimension,
    MissingYDimension,
    MissingMaxHeight,
    MissingDatapoint,
}

/// Relies on String::push: appends one character.
#[verifier::external_body]
fn push_char(s: &mut String, c: char)
    ensures
        final(s)@ == old(s)@.push(c),
{
    s.push(c);
}

/// Builds a string out of characters.
fn chars_to_string(t: &Vec<char>) -> (r: String)
    ensures
        r@ == t@,
{
    let mut s = String::new();
    let n = t.len();
    for i in 0..n
        invariant
            n == t@.len(),
            s@ =~= t@.subrange(0, i as int),
    {
        push_char(&mut s, t[i]);
        proof {
            assert(t@.subrange(0, i as int).push(t@[i as int]) =~= t@.subrange(0, i + 1 as int));
        }
    }
    proof {
        assert(t@.subrange(0, n as int) =~= t@);
    }
    s
}

/// A whitespace character of the grey-map format.
pub open spec fn spec_is_ws(c: char) -> bool {
    c == '\n' || c == ' ' || c == '\t'
}

/// A character that starts skippable text: whitespace or a comment.
pub open spec fn spec_is_skip(c: char) -> bool {
    spec_is_ws(c) || c == '#'
}

/// Where skipping ends when the cursor starts at `pos`: whitespace is
/// stepped over, a `#` skips up to its line's newline, and the scan stops
/// at the first character that can start a token, or at the end.
pub open spec fn scan_skip(chars: Seq<char>, pos: int, in_comment: bool) -> int
    decreases chars.len() - pos, (if in_comment { 1int } else { 0int }),
    when 0 <= pos <= chars.len()
{
    if pos >= chars.len() {
        pos
    } else if in_comment {
        if chars[pos] == '\n' {
            scan_skip(chars, pos, false)
        } else {
            scan_skip(chars, pos + 1, true)
        }
    } else {
        if spec_is_ws(chars[pos]) {
            scan_skip(chars, pos + 1, false)
        } else if chars[pos] == '#' {
            scan_skip(chars, pos + 1, true)
        } else {
            pos
        }
    }
}

/// Where the token that starts at `pos` ends: the next skippable character,
/// or the end of the text.
pub open spec fn scan_token(chars: Seq<char>, pos: int) -> int
    decreases chars.len() - pos,
    when 0 <= pos <= chars.len()
{
    if pos >= chars.len() {
        pos
    } else if spec_is_skip(chars[pos]) {
        pos
    } else {
        scan_token(chars, pos + 1)
    }
}

/// Skipping never moves backward nor past the end.
pub proof fn lemma_scan_skip_range(chars: Seq<char>, pos: int, in_comment: bool)
    requires
        0 <= pos <= chars.len(),
    ensures
        pos <= scan_skip(chars, pos, in_comment) <= chars.len(),
    decreases chars.len() - pos, (if in_comment { 1int } else { 0int }),
{
    if pos >= chars.len() {
    } else if in_comment {
        if chars[pos] == '\n' {
            lemma_scan_skip_range(chars, pos, false);
        } else {
            lemma_scan_skip_range(chars, pos + 1, true);
        }
    } else {
        if spec_is_ws(chars[pos]) {
            lemma_scan_skip_range(chars, pos + 1, false);
        } else if chars[pos] == '#' {
            lemma_scan_skip_range(chars, pos + 1, true);
        }
    }
}

/// A token's end never lies before its start nor past the end.
pub proof fn lemma_scan_token_range(chars: Seq<char>, pos: int)
    requires
        0 <= pos <= chars.len(),
    ensures
        pos <= scan_token(chars, pos) <= chars.len(),
    decreases chars.len() - pos,
{
    if pos < chars.len() && !spec_is_skip(chars[pos]) {
        lemma_scan_token_range(chars, pos + 1);
    }
}

/// Skipping stops only at a character that can start a token.
pub proof fn lemma_scan_skip_stops(chars: Seq<char>, pos: int, in_comment: bool)
    requires
        0 <= pos <= chars.len(),
    ensures
        scan_skip(chars, pos, in_comment) < chars.len() ==> !spec_is_skip(
            chars[scan_skip(chars, pos, in_comment)],
        ),
    decreases chars.len() - pos, (if in_comment { 1int } else { 0int }),
{
    if pos >= chars.len() {
    } else if in_comment {
        if chars[pos] == '\n' {
            lemma_scan_skip_stops(chars, pos, false);
        } else {
            lemma_scan_skip_stops(chars, pos + 1, true);
        }
    } else {
        if spec_is_ws(chars[pos]) {
            lemma_scan_skip_stops(chars, pos + 1, false);
        } else if chars[pos] == '#' {
            lemma_scan_skip_stops(chars, pos + 1, true);
        }
    }
}

/// The tokens of the text from `pos` on, in order.
pub open spec fn spec_tokens(chars: Seq<char>, pos: int) -> Seq<Seq<char>>
    decreases chars.len() - pos,
    when 0 <= pos <= chars.len()
    via spec_tokens_decreases
{
    let s = scan_skip(chars, pos, false);
    if s >= chars.len() {
        Seq::empty()
    } else {
        seq![chars.subrange(s, scan_token(chars, s))] + spec_tokens(chars, scan_token(chars, s))
    }
}

#[via_fn]
proof fn spec_tokens_decreases(chars: Seq<char>, pos: int) {
    lemma_scan_skip_range(chars, pos, false);
    lemma_scan_skip_stops(chars, pos, false);
    let s = scan_skip(chars, pos, false);
    if s < chars.len() {
        lemma_scan_token_range(chars, s);
        assert(scan_token(chars, s) == scan_token(chars, s + 1));
        lemma_scan_token_range(chars, s + 1);
    }
}

/// Iterator over tokens that skips comments and whitespace characters.
pub struct SkipWhitespace {
    chars: Vec<char>,
    pos: usize,
}

impl SkipWhitespace {
    pub closed spec fn spec_chars(self) -> Seq<char> {
        self.chars@
    }

    pub closed spec fn spec_pos(self) -> usize {
        self.pos
    }

    /// The cursor never passes the end.
    pub open spec fn wf(self) -> bool {
        self.spec_pos() <= self.spec_chars().len()
    }

    /// Starts a token iterator over `data`.
    pub fn new(data: &str) -> (r: Self)
        ensures
            r.wf(),
            r.spec_chars() == data@,
            r.spec_pos() == 0,
    {
        let mut it = data.chars();
        let mut buf: Vec<char> = Vec::new();
        loop
            invariant
                it.obeys_prophetic_iter_laws(),
                it.decrease() is Some,
                buf@ + it.remaining() == data@,
            ensures
                buf@ == data@,
            decreases it.decrease()->0,
        {
            let ghost pre = it;
            match it.next() {
                None => {
                    proof {
                        assert(buf@ =~= buf@ + pre.remaining());
                    }
                    break ;
                },
                Some(c) => {
                    buf.push(c);
                    proof {
                        assert(buf@ + it.remaining() =~= data@);
                    }
                },
            }
        }
        SkipWhitespace { chars: buf, pos: 0 }
    }

    /// Whether the character is whitespace.
    pub fn is_white_space(c: &char) -> (r: bool)
        ensures
            r == spec_is_ws(*c),
    {
        *c == '\n' || *c == ' ' || *c == '\t'
    }

    /// Advances the cursor over whitespace, stopping at the first other
    /// character or the end.
    pub fn skip_whitespace(&mut self)
        requires
            old(self).wf(),
        ensures
            final(self).wf(),
            final(self).spec_chars() == old(self).spec_chars(),
            final(self).spec_pos() >= old(self).spec_pos(),
            forall|k: int|
                old(self).spec_pos() <= k < final(self).spec_pos() ==> spec_is_ws(
                    #[trigger] final(self).spec_chars()[k],
                ),
            final(self).spec_pos() < final(self).spec_chars().len() ==> !spec_is_ws(
                final(self).spec_chars()[final(self).spec_pos() as int],
            ),
            scan_skip(final(self).spec_chars(), final(self).spec_pos() as int, false) == scan_skip(
                old(self).spec_chars(),
                old(self).spec_pos() as int,
                false,
            ),
    {
        while self.pos < self.chars.len() && Self::is_white_space(&self.chars[self.pos])
            invariant
                self.wf(),
                self.chars@ == old(self).chars@,
                self.pos >= old(self).pos,
                forall|k: int|
                    old(self).pos <= k < self.pos ==> spec_is_ws(#[trigger] self.chars@[k]),
                scan_skip(self.chars@, self.pos as int, false) == scan_skip(
                    old(self).chars@,
                    old(self).pos as int,
                    false,
                ),
            decreases self.chars@.len() - self.pos,
        {
            self.pos = self.pos + 1;
        }
    }

    /// Advances the cursor over a comment: when it rests on `#`, moves it
    /// forward until a newline or the end of the text.
    pub fn skip_comment(&mut self)
        requires
            old(self).wf(),
        ensures
            final(self).wf(),
            final(self).spec_chars() == old(self).spec_chars(),
            final(self).spec_pos() >= old(self).spec_pos(),
            (old(self).spec_pos() >= old(self).spec_chars().len() || old(self).spec_chars()[old(
                self,
            ).spec_pos() as int] != '#') ==> final(self).spec_pos() == old(self).spec_pos(),
            (old(self).spec_pos() < old(self).spec_chars().len() && old(self).spec_chars()[old(
                self,
            ).spec_pos() as int] == '#') ==> final(self).spec_pos() > old(self).spec_pos(),
            scan_skip(final(self).spec_chars(), final(self).spec_pos() as int, false) == scan_skip(
                old(self).spec_chars(),
                old(self).spec_pos() as int,
                false,
            ),
    {
        if self.pos < self.chars.len() && self.chars[self.pos] == '#' {
            self.pos = self.pos + 1;
            while self.pos < self.chars.len() && self.chars[self.pos] != '\n'
                invariant
                    self.wf(),
                    self.chars@ == old(self).chars@,
                    self.pos > old(self).pos,
                    scan_skip(self.chars@, self.pos as int, true) == scan_skip(
                        old(self).chars@,
                        old(self).pos as int,
                        false,
                    ),
                decreases self.chars@.len() - self.pos,
            {
                self.pos = self.pos + 1;
            }
        }
    }

    /// Whether the cursor rests on skippable text.
    pub fn is_next_skippable(&self) -> (r: bool)
        requires
            self.wf(),
        ensures
            r == (self.spec_pos() < self.spec_chars().len() && spec_is_skip(
                self.spec_chars()[self.spec_pos() as int],
            )),
    {
        if self.pos < self.chars.len() {
            let c = self.chars[self.pos];
            Self::is_white_space(&c) || c == '#'
        } else {
            false
        }
    }

    /// The next token as raw characters.
    fn next_chars(&mut self) -> (r: Option<Vec<char>>)
        requires
            old(self).wf(),
        ensures
            final(self).wf(),
            final(self).spec_chars() == old(self).spec_chars(),
            final(self).spec_pos() >= old(self).spec_pos(),
            match r {
                Some(t) => t@.len() >= 1 && (forall|i: int|
                    0 <= i < t@.len() ==> !spec_is_skip(#[trigger] t@[i])) && final(self).spec_pos()
                    > old(self).spec_pos(),
                None => final(self).spec_pos() == final(self).spec_chars().len(),
            },
            ({
                let cs = old(self).spec_chars();
                let s0 = scan_skip(cs, old(self).spec_pos() as int, false);
                match r {
                    Some(t) => s0 < cs.len() && final(self).spec_pos() == scan_token(cs, s0) && t@
                        == cs.subrange(s0, scan_token(cs, s0)),
                    None => s0 == cs.len(),
                }
            }),
    {
        loop
            invariant
                self.wf(),
                self.chars@ == old(self).chars@,
                self.pos >= old(self).pos,
                scan_skip(self.chars@, self.pos as int, false) == scan_skip(
                    old(self).chars@,
                    old(self).pos as int,
                    false,
                ),
            ensures
                self.wf(),
                self.chars@ == old(self).chars@,
                self.pos >= old(self).pos,
                self.pos < self.chars@.len() ==> !spec_is_skip(self.chars@[self.pos as int]),
                self.pos == scan_skip(old(self).chars@, old(self).pos as int, false),
            decreases self.chars@.len() - self.pos,
        {
            if self.is_next_skippable() {
                self.skip_comment();
                self.skip_whitespace();
            } else {
                break ;
            }
        }
        let mut token: Vec<char> = Vec::new();
        let start = self.pos;
        loop
            invariant
                self.wf(),
                self.chars@ == old(self).chars@,
                self.pos >= start,
                start >= old(self).pos,
                start == scan_skip(old(self).chars@, old(self).pos as int, false),
                token@.len() == self.pos - start,
                token@ =~= self.chars@.subrange(start as int, self.pos as int),
                forall|i: int| 0 <= i < token@.len() ==> !spec_is_skip(#[trigger] token@[i]),
                start < self.chars@.len() ==> !spec_is_skip(self.chars@[start as int]),
                scan_token(self.chars@, self.pos as int) == scan_token(self.chars@, start as int),
            ensures
                self.wf(),
                self.chars@ == old(self).chars@,
                self.pos >= start,
                start >= old(self).pos,
                start == scan_skip(old(self).chars@, old(self).pos as int, false),
                token@.len() == self.pos - start,
                token@ =~= self.chars@.subrange(start as int, self.pos as int),
                forall|i: int| 0 <= i < token@.len() ==> !spec_is_skip(#[trigger] token@[i]),
                token@.len() == 0 ==> self.pos == start,
                self.pos >= self.chars@.len() || spec_is_skip(self.chars@[self.pos as int]),
                self.pos == scan_token(self.chars@, start as int),
            decreases self.chars@.len() - self.pos,
        {
            if self.pos >= self.chars.len() {
                break ;
            }
            let c = self.chars[self.pos];
            if Self::is_white_space(&c) || c == '#' {
                break ;
            }
            proof {
                assert(self.chars@.subrange(start as int, self.pos + 1 as int) =~= self.chars@
                    .subrange(start as int, self.pos as int).push(self.chars@[self.pos as int]));
            }
            token.push(c);
            self.pos = self.pos + 1;
        }
        if token.len() == 0 {
            None
        } else {
            Some(token)
        }
    }

    /// The next token, with comments and whitespace skipped; `None` once the
    /// text is exhausted. The token is exactly the next maximal run of
    /// non-skippable characters of the text, with only whitespace and
    /// comments stepped over before it.
    pub fn next(&mut self) -> (r: Option<String>)
        requires
            old(self).wf(),
        ensures
            final(self).wf(),
            final(self).spec_chars() == old(self).spec_chars(),
            final(self).spec_pos() >= old(self).spec_pos(),
            match r {
                Some(t) => t@.len() >= 1 && (forall|i: int|
                    0 <= i < t@.len() ==> !spec_is_skip(#[trigger] t@[i])) && final(self).spec_pos()
                    > old(self).spec_pos(),
                None => final(self).spec_pos() == final(self).spec_chars().len(),
            },
            ({
                let cs = old(self).spec_chars();
                let s0 = scan_skip(cs, old(self).spec_pos() as int, false);
                match r {
                    Some(t) => s0 < cs.len() && final(self).spec_pos() == scan_token(cs, s0) && t@
                        == cs.subrange(s0, scan_token(cs, s0)),
                    None => s0 == cs.len(),
                }
            }),
    {
        match self.next_chars() {
            Some(t) => Some(chars_to_string(&t)),
            None => None,
        }
    }
}

/// Whether the character is a decimal digit.
pub open spec fn spec_is_digit(c: char) -> bool {
    48 <= c as u32 <= 57
}

/// The value of a digit string read in base ten.
pub open spec fn digits_val(s: Seq<char>) -> int
    decreases s.len(),
{
    if s.len() == 0 {
        0
    } else {
        digits_val(s.drop_last()) * 10 + (s.last() as u32 - 48)
    }
}

proof fn lemma_digits_val_nonneg(s: Seq<char>)
    requires
        forall|i: int| 0 <= i < s.len() ==> spec_is_digit(#[trigger] s[i]),
    ensures
        digits_val(s) >= 0,
    decreases s.len(),
{
    if s.len() > 0 {
        lemma_digits_val_nonneg(s.drop_last());
    }
}

proof fn lemma_digits_val_monotone(s: Seq<char>, i: int)
    requires
        forall|k: int| 0 <= k < s.len() ==> spec_is_digit(#[trigger] s[k]),
        0 <= i <= s.len(),
    ensures
        digits_val(s) >= digits_val(s.subrange(0, i)),
    decreases s.len() - i,
{
    if i == s.len() {
        assert(s.subrange(0, i) =~= s);
    } else {
        lemma_digits_val_monotone(s, i + 1);
        let p = s.subrange(0, i + 1);
        assert(p.drop_last() =~= s.subrange(0, i));
        lemma_digits_val_nonneg(s.subrange(0, i));
    }
}

/// Reads a base-ten number; `None` when the characters are not all digits,
/// there are none, or the value leaves `u64`.
pub fn parse_u64(t: &Vec<char>) -> (r: Option<u64>)
    ensures
        match r {
            Some(v) => t@.len() >= 1 && (forall|i: int|
                0 <= i < t@.len() ==> spec_is_digit(#[trigger] t@[i])) && v == digits_val(t@),
            None => t@.len() == 0 || (exists|i: int|
                0 <= i < t@.len() && !spec_is_digit(#[trigger] t@[i])) || digits_val(t@)
                > u64::MAX,
        },
{
    let n = t.len();
    if n == 0 {
        return None;
    }
    let mut acc: u64 = 0;
    for i in 0..n
        invariant
            n == t@.len(),
            forall|k: int| 0 <= k < i ==> spec_is_digit(#[trigger] t@[k]),
            acc == digits_val(t@.subrange(0, i as int)),
    {
        let d = t[i] as u32;
        if d < 48 || d > 57 {
            return None;
        }
        proof {
            let post = t@.subrange(0, i + 1 as int);
            assert(post.drop_last() =~= t@.subrange(0, i as int));
            assert(post.last() == t@[i as int]);
        }
        let next = match acc.checked_mul(10) {
            Some(m) => m.checked_add((d - 48) as u64),
            None => None,
        };
        match next {
            Some(v) => {
                acc = v;
            },
            None => {
                proof {
                    assert(forall|k: int|
                        0 <= k < t@.subrange(0, i + 1 as int).len() ==> spec_is_digit(
                            #[trigger] t@.subrange(0, i + 1 as int)[k],
                        ));
                    assert(digits_val(t@.subrange(0, i + 1 as int)) > u64::MAX);
                    if forall|k: int| 0 <= k < t@.len() ==> spec_is_digit(#[trigger] t@[k]) {
                        lemma_digits_val_monotone(t@, i + 1);
                    }
                }
                return None;
            },
        }
    }
    proof {
        assert(t@.subrange(0, n as int) =~= t@);
    }
    Some(acc)
}

/// Whether the characters are all digits naming a value of at most `limit`.
pub open spec fn spec_number_ok(t: Seq<char>, limit: int) -> bool {
    t.len() >= 1 && (forall|i: int| 0 <= i < t.len() ==> spec_is_digit(#[trigger] t[i]))
        && digits_val(t) <= limit
}

/// Fetches the next token and accounts for it against the text's token
/// list: a returned token is exactly the list's entry at `idx`, and `None`
/// comes exactly when the list is exhausted.
fn take_token(
    iter: &mut SkipWhitespace,
    Ghost(toks): Ghost<Seq<Seq<char>>>,
    Ghost(idx): Ghost<int>,
) -> (r: Option<Vec<char>>)
    requires
        old(iter).wf(),
        0 <= idx <= toks.len(),
        spec_tokens(old(iter).spec_chars(), old(iter).spec_pos() as int) =~= toks.skip(idx),
    ensures
        final(iter).wf(),
        final(iter).spec_chars() == old(iter).spec_chars(),
        match r {
            Some(t) => idx < toks.len() && t@ == toks[idx] && t@.len() >= 1 && spec_tokens(
                final(iter).spec_chars(),
                final(iter).spec_pos() as int,
            ) =~= toks.skip(idx + 1),
            None => idx == toks.len() && spec_tokens(
                final(iter).spec_chars(),
                final(iter).spec_pos() as int,
            ) =~= toks.skip(idx),
        },
{
    let ghost cs = iter.spec_chars();
    let ghost p0 = iter.spec_pos() as int;
    let r = iter.next_chars();
    proof {
        let s0 = scan_skip(cs, p0, false);
        lemma_scan_skip_range(cs, p0, false);
        match &r {
            Some(t) => {
                assert(spec_tokens(cs, p0) == seq![cs.subrange(s0, scan_token(cs, s0))]
                    + spec_tokens(cs, scan_token(cs, s0)));
                assert(toks.skip(idx).len() >= 1);
                assert(toks.skip(idx)[0] == toks[idx]);
                assert(t@ == toks[idx]);
                assert(spec_tokens(cs, scan_token(cs, s0)) =~= toks.skip(idx).skip(1));
                assert(toks.skip(idx).skip(1) =~= toks.skip(idx + 1));
            },
            None => {
                assert(spec_tokens(cs, p0) =~= Seq::<Seq<char>>::empty());
                assert(toks.skip(idx).len() == 0);
                assert(idx == toks.len());
            },
        }
    }
    r
}

/// Parses a plain grey map: the magic token `P2`, two dimensions, a maximum
/// height, and one height per cell, with `#` comments and whitespace
/// skipped. Heights are scaled by `y_scale_milli` fixed-point units per
/// grey level; dimensions and heights beyond the terrain's limits are
/// rejected as invalid numbers. The result is characterized against the
/// text's token list: a parsed terrain carries exactly the listed
/// dimensions and per-cell heights, and each error names the first token
/// that broke its rule.
pub fn terrain_from_pgm(data: String, default_tile_type: TileType, y_scale_milli: i64) -> (r:
    Result<Terrain, ParseError>)
    requires
        0 <= y_scale_milli <= 1000,
    ensures
        ({
            let toks = spec_tokens(data@, 0);
            let magic_ok = toks.len() >= 1 && toks[0] == seq!['P', '2'];
            let dims_ok = toks.len() >= 3 && spec_number_ok(toks[1], DIM_LIMIT as int)
                && spec_number_ok(toks[2], DIM_LIMIT as int);
            match r {
                Ok(t) => {
                    &&& t.wf()
                    &&& magic_ok
                    &&& dims_ok
                    &&& t.spec_width() == digits_val(toks[1])
                    &&& t.spec_height() == digits_val(toks[2])
                    &&& toks.len() >= 4 && spec_number_ok(toks[3], u64::MAX as int)
                    &&& toks.len() >= 4 + t.spec_width() * t.spec_height()
                    &&& t.spec_tiles().len() == t.spec_width() * t.spec_height()
                    &&& forall|i: int|
                        0 <= i < t.spec_tiles().len() ==> spec_number_ok(
                            #[trigger] toks[4 + i],
                            1000000,
                        )
                    &&& forall|i: int|
                        0 <= i < t.spec_tiles().len() ==> (#[trigger] t.spec_tiles()[i]).height
                            == digits_val(toks[4 + i]) * y_scale_milli
                            && t.spec_tiles()[i].tile_type == default_tile_type
                },
                Err(e) => match e {
                    ParseError::EmptyFile => toks.len() == 0,
                    ParseError::InvalidMagicNumber(s) => toks.len() >= 1 && s@ == toks[0] && toks[0]
                        != seq!['P', '2'],
                    ParseError::MissingXDimension => magic_ok && toks.len() == 1,
                    ParseError::MissingYDimension => magic_ok && toks.len() == 2 && spec_number_ok(
                        toks[1],
                        DIM_LIMIT as int,
                    ),
                    ParseError::MissingMaxHeight => magic_ok && dims_ok && toks.len() == 3,
                    ParseError::MissingDatapoint => {
                        &&& magic_ok
                        &&& dims_ok
                        &&& toks.len() >= 4 && spec_number_ok(toks[3], u64::MAX as int)
                        &&& toks.len() < 4 + digits_val(toks[1]) * digits_val(toks[2])
                        &&& forall|k: int|
                            0 <= k < toks.len() - 4 ==> spec_number_ok(
                                #[trigger] toks[4 + k],
                                1000000,
                            )
                    },
                    ParseError::InvalidNumber { context, error } => match context {
                        Context::XDimension => magic_ok && toks.len() >= 2 && error@ == toks[1]
                            && !spec_number_ok(toks[1], DIM_LIMIT as int),
                        Context::YDimension => magic_ok && toks.len() >= 3 && spec_number_ok(
                            toks[1],
                            DIM_LIMIT as int,
                        ) && error@ == toks[2] && !spec_number_ok(toks[2], DIM_LIMIT as int),
                        Context::MaxHeight => magic_ok && dims_ok && toks.len() >= 4 && error@
                            == toks[3] && !spec_number_ok(toks[3], u64::MAX as int),
                        Context::Height => magic_ok && dims_ok && toks.len() >= 4
                            && spec_number_ok(toks[3], u64::MAX as int) && exists|k: int|
                            {
                                &&& 0 <= k < digits_val(toks[1]) * digits_val(toks[2])
                                &&& 4 + k < toks.len()
                                &&& error@ == #[trigger] toks[4 + k]
                                &&& !spec_number_ok(toks[4 + k], 1000000)
                                &&& forall|j: int|
                                    0 <= j < k ==> spec_number_ok(#[trigger] toks[4 + j], 1000000)
                            },
                    },
                },
            }
        }),
{
    let mut iter = SkipWhitespace::new(data.as_str());
    let ghost toks = spec_tokens(data@, 0);
    proof {
        assert(spec_tokens(iter.spec_chars(), iter.spec_pos() as int) =~= toks.skip(0));
    }
    match take_token(&mut iter, Ghost(toks), Ghost(0)) {
        Some(magic) => {
            if !(magic.len() == 2 && magic[0] == 'P' && magic[1] == '2') {
                proof {
                    assert(toks[0] != seq!['P', '2']) by {
                        if toks[0] == seq!['P', '2'] {
                            assert(magic@ =~= seq!['P', '2']);
                        }
                    }
                }
                return Err(ParseError::InvalidMagicNumber(chars_to_string(&magic)));
            }
            proof {
                assert(magic@ =~= seq!['P', '2']);
            }
        },
        None => {
            return Err(ParseError::EmptyFile);
        },
    }
    let x_token = match take_token(&mut iter, Ghost(toks), Ghost(1)) {
        Some(t) => t,
        None => {
            return Err(ParseError::MissingXDimension);
        },
    };
    let x_ok = match parse_u64(&x_token) {
        Some(x) => {
            if x > DIM_LIMIT as u64 {
                None
            } else {
                Some(x)
            }
        },
        None => None,
    };
    let x_dimensions: u64 = match x_ok {
        Some(x) => {
            proof {
                lemma_digits_val_nonneg(toks[1]);
            }
            x
        },
        None => {
            return Err(
                ParseError::InvalidNumber {
                    context: Context::XDimension,
                    error: chars_to_string(&x_token),
                },
            );
        },
    };
    let y_token = match take_token(&mut iter, Ghost(toks), Ghost(2)) {
        Some(t) => t,
        None => {
            return Err(ParseError::MissingYDimension);
        },
    };
    let y_ok = match parse_u64(&y_token) {
        Some(y) => {
            if y > DIM_LIMIT as u64 {
                None
            } else {
                Some(y)
            }
        },
        None => None,
    };
    let y_dimensions: u64 = match y_ok {
        Some(y) => {
            proof {
                lemma_digits_val_nonneg(toks[2]);
            }
            y
        },
        None => {
            return Err(
                ParseError::InvalidNumber {
                    context: Context::YDimension,
                    error: chars_to_string(&y_token),
                },
            );
        },
    };
    let max_token = match take_token(&mut iter, Ghost(toks), Ghost(3)) {
        Some(t) => t,
        None => {
            return Err(ParseError::MissingMaxHeight);
        },
    };
    match parse_u64(&max_token) {
        Some(_) => {},
        None => {
            return Err(
                ParseError::InvalidNumber {
                    context: Context::MaxHeight,
                    error: chars_to_string(&max_token),
                },
            );
        },
    }
    let w = x_dimensions as usize;
    let h = y_dimensions as usize;
    let mut tiles: Vec<Tile> = Vec::new();
    proof {
        assert(0int * h == 0) by (nonlinear_arith);
    }
    for x in 0..w
        invariant
            w <= DIM_LIMIT,
            h <= DIM_LIMIT,
            w == digits_val(toks[1]),
            h == digits_val(toks[2]),
            toks.len() >= 4,
            toks[0] == seq!['P', '2'],
            spec_number_ok(toks[1], DIM_LIMIT as int),
            spec_number_ok(toks[2], DIM_LIMIT as int),
            spec_number_ok(toks[3], u64::MAX as int),
            0 <= y_scale_milli <= 1000,
            iter.wf(),
            iter.spec_chars() == data@,
            toks == spec_tokens(data@, 0),
            spec_tokens(iter.spec_chars(), iter.spec_pos() as int) =~= toks.skip(
                4 + x * h as int,
            ),
            4 + x * h <= toks.len(),
            tiles@.len() == x * h,
            forall|i: int|
                0 <= i < tiles@.len() ==> spec_number_ok(#[trigger] toks[4 + i], 1000000),
            forall|i: int|
                0 <= i < tiles@.len() ==> (#[trigger] tiles@[i]).height == digits_val(
                    toks[4 + i],
                ) * y_scale_milli && tiles@[i].tile_type == default_tile_type,
            forall|i: int|
                0 <= i < tiles@.len() ==> 0 <= (#[trigger] tiles@[i]).height <= HEIGHT_LIMIT,
    {
        for y in 0..h
            invariant
                w <= DIM_LIMIT,
                h <= DIM_LIMIT,
                w == digits_val(toks[1]),
                h == digits_val(toks[2]),
                toks.len() >= 4,
                toks[0] == seq!['P', '2'],
                spec_number_ok(toks[1], DIM_LIMIT as int),
                spec_number_ok(toks[2], DIM_LIMIT as int),
                spec_number_ok(toks[3], u64::MAX as int),
                x < w,
                0 <= y_scale_milli <= 1000,
                iter.wf(),
                iter.spec_chars() == data@,
                toks == spec_tokens(data@, 0),
                spec_tokens(iter.spec_chars(), iter.spec_pos() as int) =~= toks.skip(
                    4 + x * h + y as int,
                ),
                4 + x * h + y <= toks.len(),
                tiles@.len() == x * h + y,
                forall|i: int|
                    0 <= i < tiles@.len() ==> spec_number_ok(#[trigger] toks[4 + i], 1000000),
                forall|i: int|
                    0 <= i < tiles@.len() ==> (#[trigger] tiles@[i]).height == digits_val(
                        toks[4 + i],
                    ) * y_scale_milli && tiles@[i].tile_type == default_tile_type,
                forall|i: int|
                    0 <= i < tiles@.len() ==> 0 <= (#[trigger] tiles@[i]).height <= HEIGHT_LIMIT,
        {
            proof {
                assert(x * h + y < w * h) by (nonlinear_arith)
                    requires
                        0 <= x < w,
                        0 <= y < h,
                ;
            }
            let height_token = match take_token(
                &mut iter,
                Ghost(toks),
                Ghost(4 + x * h + y as int),
            ) {
                Some(t) => t,
                None => {
                    return Err(ParseError::MissingDatapoint);
                },
            };
            let raw_ok = match parse_u64(&height_token) {
                Some(v) => {
                    if v > 1000000 {
                        None
                    } else {
                        Some(v)
                    }
                },
                None => None,
            };
            let raw: u64 = match raw_ok {
                Some(v) => {
                    proof {
                        lemma_digits_val_nonneg(toks[4 + x * h + y as int]);
                        assert(spec_number_ok(toks[4 + x * h + y as int], 1000000));
                    }
                    v
                },
                None => {
                    proof {
                        let k = x * h + y as int;
                        assert(!spec_number_ok(toks[4 + k], 1000000));
                        assert(forall|j: int|
                            0 <= j < k ==> spec_number_ok(#[trigger] toks[4 + j], 1000000));
                    }
                    return Err(
                        ParseError::InvalidNumber {
                            context: Context::Height,
                            error: chars_to_string(&height_token),
                        },
                    );
                },
            };
            proof {
                assert((raw as int) * (y_scale_milli as int) <= 1000000int * 1000)
                    by (nonlinear_arith)
                    requires
                        0 <= raw <= 1000000,
                        0 <= y_scale_milli <= 1000,
                ;
                assert((raw as int) * (y_scale_milli as int) >= 0) by (nonlinear_arith)
                    requires
                        0 <= raw,
                        0 <= y_scale_milli,
                ;
                assert(x * h + y + 1 <= DIM_LIMIT * DIM_LIMIT) by (nonlinear_arith)
                    requires
                        0 <= x < w,
                        0 <= y < h,
                        w <= DIM_LIMIT,
                        h <= DIM_LIMIT,
                ;
            }
            let height: i64 = (raw as i64) * y_scale_milli;
            let tile_type = match default_tile_type {
                TileType::Snow => TileType::Snow,
            };
            tiles.push(Tile { height, tile_type });
            proof {
                let k = x * h + y as int;
                assert(tiles@[k].height == digits_val(toks[4 + k]) * y_scale_milli);
                assert(tiles@[k].tile_type == default_tile_type);
            }
        }
        proof {
            assert(x * h + h == (x + 1) * h) by (nonlinear_arith);
        }
    }
    proof {
        assert(tiles@.len() == w * h);
    }
    Ok(Terrain::from_tiles(tiles, w, h))
}

} // verus!
