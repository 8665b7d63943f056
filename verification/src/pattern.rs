//! The four line recognizers of the engine, as specification functions over
//! `Seq<char>` together with verified executable counterparts.
//!
//! A line is a *documentation comment* when, after leading spaces and tabs,
//! it starts with `//` followed by `/` or `!`.  An *inline citation marker*
//! is `[^@` followed by the key text up to the first `]`, with no line break
//! in between.  A *citation footnote definition* is a comment line whose
//! marker is followed (after spaces and tabs) by `[^@` and, further on, by
//! `]:`; a *generic footnote definition* only needs `[^` there.

use vstd::prelude::*;
use vstd::string::StrSliceExecFns;

verus! {

/// Whitespace accepted around the markers: spaces and tabs.
pub open spec fn is_space(c: char) -> bool {
    c == ' ' || c == '\t'
}

/// Length of the longest prefix of `s` made of spaces and tabs.
pub open spec fn ws_len(s: Seq<char>) -> int
    decreases s.len(),
{
    if s.len() == 0 || !is_space(s[0]) {
        0
    } else {
        1 + ws_len(s.skip(1))
    }
}

pub proof fn lemma_ws_len(s: Seq<char>)
    ensures
        0 <= ws_len(s) <= s.len(),
        forall|j: int| 0 <= j < ws_len(s) ==> is_space(#[trigger] s[j]),
        ws_len(s) < s.len() ==> !is_space(s[ws_len(s)]),
    decreases s.len(),
{
    if s.len() == 0 || !is_space(s[0]) {
    } else {
        lemma_ws_len(s.skip(1));
        assert forall|j: int| 0 <= j < ws_len(s) implies is_space(#[trigger] s[j]) by {
            if j > 0 {
                assert(s.skip(1)[j - 1] == s[j]);
            }
        }
        if ws_len(s) < s.len() {
            assert(s.skip(1)[ws_len(s) - 1] == s[ws_len(s)]);
        }
    }
}

pub proof fn lemma_ws_len_unique(s: Seq<char>, w: int)
    requires
        0 <= w <= s.len(),
        forall|j: int| 0 <= j < w ==> is_space(#[trigger] s[j]),
        w < s.len() ==> !is_space(s[w]),
    ensures
        w == ws_len(s),
    decreases s.len(),
{
    if w == 0 {
    } else {
        assert(is_space(s[0]));
        assert forall|j: int| 0 <= j < w - 1 implies is_space(#[trigger] s.skip(1)[j]) by {
            assert(s.skip(1)[j] == s[j + 1]);
        }
        if w - 1 < s.skip(1).len() {
            assert(s.skip(1)[w - 1] == s[w]);
        }
        lemma_ws_len_unique(s.skip(1), w - 1);
    }
}

/// Index just past the comment marker: leading whitespace plus `//` plus
/// `/` or `!`.
pub open spec fn marker_end(s: Seq<char>) -> int {
    ws_len(s) + 3
}

/// The line begins, after optional spaces and tabs, with `///` or `//!`.
pub open spec fn is_comment_line(s: Seq<char>) -> bool {
    let w = ws_len(s);
    &&& w + 3 <= s.len()
    &&& s[w] == '/'
    &&& s[w + 1] == '/'
    &&& (s[w + 2] == '/' || s[w + 2] == '!')
}

/// The matched comment marker text: leading whitespace plus the marker.
pub open spec fn comment_prefix(s: Seq<char>) -> Seq<char> {
    s.take(marker_end(s))
}

/// Index of the first character after the whitespace that follows the
/// comment marker; a footnote definition must start here.
pub open spec fn footnote_start(s: Seq<char>) -> int {
    marker_end(s) + ws_len(s.skip(marker_end(s)))
}

/// A comment line whose marker is followed by `[^` and later by `]:`:
/// a footnote definition for any label.
pub open spec fn is_generic_footnote(s: Seq<char>) -> bool {
    &&& is_comment_line(s)
    &&& {
        let q = footnote_start(s);
        &&& q + 2 <= s.len()
        &&& s[q] == '['
        &&& s[q + 1] == '^'
        &&& exists|j: int| q + 2 <= j && j + 1 < s.len() && #[trigger] s[j] == ']' && s[j + 1] == ':'
    }
}

/// A comment line whose marker is followed by `[^@` and later by `]:`:
/// a citation footnote definition, as written by this engine.
pub open spec fn is_cite_footnote(s: Seq<char>) -> bool {
    &&& is_comment_line(s)
    &&& {
        let q = footnote_start(s);
        &&& q + 3 <= s.len()
        &&& s[q] == '['
        &&& s[q + 1] == '^'
        &&& s[q + 2] == '@'
        &&& exists|j: int| q + 3 <= j && j + 1 < s.len() && #[trigger] s[j] == ']' && s[j + 1] == ':'
    }
}

/// An inline citation marker opens at index `i`.
pub open spec fn cite_open_at(s: Seq<char>, i: int) -> bool {
    &&& 0 <= i
    &&& i + 3 <= s.len()
    &&& s[i] == '['
    &&& s[i + 1] == '^'
    &&& s[i + 2] == '@'
}

/// Index of the first `]` in `s` provided no line break comes before it;
/// `-1` when there is none.
pub open spec fn close_pos(s: Seq<char>) -> int
    decreases s.len(),
{
    if s.len() == 0 {
        -1
    } else if s[0] == ']' {
        0
    } else if s[0] == '\n' {
        -1
    } else if close_pos(s.skip(1)) < 0 {
        -1
    } else {
        1 + close_pos(s.skip(1))
    }
}

pub proof fn lemma_close_pos_bound(s: Seq<char>)
    ensures
        close_pos(s) < s.len(),
        close_pos(s) >= 0 ==> s[close_pos(s)] == ']',
        close_pos(s) >= 0 ==> forall|m: int|
            0 <= m < close_pos(s) ==> #[trigger] s[m] != ']' && s[m] != '\n',
    decreases s.len(),
{
    if s.len() == 0 || s[0] == ']' || s[0] == '\n' {
    } else {
        lemma_close_pos_bound(s.skip(1));
        if close_pos(s) >= 0 {
            assert(s.skip(1)[close_pos(s) - 1] == s[close_pos(s)]);
            assert forall|m: int| 0 <= m < close_pos(s) implies #[trigger] s[m] != ']' && s[m]
                != '\n' by {
                if m > 0 {
                    assert(s.skip(1)[m - 1] == s[m]);
                }
            }
        }
    }
}

/// What `close_pos` returns, read off from the characters: if `c` is the
/// index of the first `]` or line break, the result is `c` or `-1`
/// accordingly; if there is neither, the result is `-1`.
pub proof fn lemma_close_pos_unique(s: Seq<char>, c: int)
    requires
        0 <= c <= s.len(),
        forall|m: int| 0 <= m < c ==> #[trigger] s[m] != ']' && s[m] != '\n',
    ensures
        c < s.len() && s[c] == ']' ==> close_pos(s) == c,
        c < s.len() && s[c] == '\n' ==> close_pos(s) == -1,
        c == s.len() ==> close_pos(s) == -1,
    decreases s.len(),
{
    if c == 0 {
        if s.len() > 0 && s[0] != ']' && s[0] != '\n' {
        }
    } else {
        assert(s[0] != ']' && s[0] != '\n');
        assert forall|m: int| 0 <= m < c - 1 implies #[trigger] s.skip(1)[m] != ']' && s.skip(1)[m]
            != '\n' by {
            assert(s.skip(1)[m] == s[m + 1]);
        }
        if c - 1 < s.skip(1).len() {
            assert(s.skip(1)[c - 1] == s[c]);
        }
        lemma_close_pos_unique(s.skip(1), c - 1);
    }
}

/// Every citation key referenced in `s`, in order of appearance, duplicates
/// included.  A marker `[^@k]` contributes the key text `k`, which runs up
/// to the first `]` and may not contain a line break.
pub open spec fn scan_keys(s: Seq<char>) -> Seq<Seq<char>>
    decreases s.len(),
    via scan_keys_decreases
{
    if s.len() < 4 {
        seq![]
    } else if cite_open_at(s, 0) && close_pos(s.skip(3)) >= 0 {
        let j = close_pos(s.skip(3));
        seq![s.subrange(3, 3 + j)] + scan_keys(s.skip(4 + j))
    } else {
        scan_keys(s.skip(1))
    }
}

#[via_fn]
proof fn scan_keys_decreases(s: Seq<char>) {
    if s.len() >= 4 {
        lemma_close_pos_bound(s.skip(3));
    }
}

/// The line references at least one citation key.
pub open spec fn has_cite(s: Seq<char>) -> bool {
    scan_keys(s).len() > 0
}

/// Strict lexicographic order on character sequences, by code point; on the
/// normalized key text this coincides with byte-wise order of the UTF-8
/// encoding.
pub open spec fn lex_lt(a: Seq<char>, b: Seq<char>) -> bool
    decreases a.len(),
{
    if b.len() == 0 {
        false
    } else if a.len() == 0 {
        true
    } else if a[0] == b[0] {
        lex_lt(a.skip(1), b.skip(1))
    } else {
        (a[0] as u32) < (b[0] as u32)
    }
}

pub proof fn lemma_lex_lt_irrefl(a: Seq<char>)
    ensures
        !lex_lt(a, a),
    decreases a.len(),
{
    if a.len() > 0 {
        lemma_lex_lt_irrefl(a.skip(1));
    }
}

pub proof fn lemma_lex_lt_total(a: Seq<char>, b: Seq<char>)
    ensures
        lex_lt(a, b) || lex_lt(b, a) || a == b,
    decreases a.len(),
{
    if a.len() == 0 {
        if b.len() == 0 {
            assert(a =~= b);
        }
    } else if b.len() == 0 {
    } else if a[0] == b[0] {
        lemma_lex_lt_total(a.skip(1), b.skip(1));
        if !lex_lt(a, b) && !lex_lt(b, a) {
            assert(a.skip(1) == b.skip(1));
            assert(a.len() == b.len());
            assert forall|j: int| 0 <= j < a.len() implies a[j] == b[j] by {
                if j > 0 {
                    assert(a[j] == a.skip(1)[j - 1]);
                    assert(b[j] == b.skip(1)[j - 1]);
                }
            }
            assert(a =~= b);
        }
    } else {
        vstd::utf8::char_u32_cast(a[0], a[0] as u32);
        vstd::utf8::char_u32_cast(b[0], b[0] as u32);
    }
}

pub proof fn lemma_lex_lt_trans(a: Seq<char>, b: Seq<char>, c: Seq<char>)
    requires
        lex_lt(a, b),
        lex_lt(b, c),
    ensures
        lex_lt(a, c),
    decreases a.len(),
{
    if a.len() == 0 {
    } else if b.len() == 0 {
    } else if c.len() == 0 {
    } else {
        if a[0] == b[0] && b[0] == c[0] {
            lemma_lex_lt_trans(a.skip(1), b.skip(1), c.skip(1));
        }
    }
}

/// Length of the run of spaces and tabs in `s` starting at `from`.
fn ws_run(s: &str, from: usize) -> (w: usize)
    requires
        from <= s@.len(),
    ensures
        from + w <= s@.len(),
        w == ws_len(s@.skip(from as int)),
{
    let n = s.unicode_len();
    let mut i = from;
    loop
        invariant
            from <= i <= n,
            n == s@.len(),
            forall|j: int| from <= j < i ==> is_space(#[trigger] s@[j]),
        ensures
            from <= i <= n,
            n == s@.len(),
            forall|j: int| from <= j < i ==> is_space(#[trigger] s@[j]),
            i == n || !is_space(s@[i as int]),
        decreases n - i,
    {
        if i == n {
            break;
        }
        let c = s.get_char(i);
        if c != ' ' && c != '\t' {
            break;
        }
        i = i + 1;
    }
    proof {
        let t = s@.skip(from as int);
        assert forall|j: int| 0 <= j < i - from implies is_space(#[trigger] t[j]) by {
            assert(t[j] == s@[j + from]);
        }
        if i - from < t.len() {
            assert(t[i - from] == s@[i as int]);
        }
        lemma_ws_len_unique(t, i - from);
    }
    i - from
}

/// Whether the line is a documentation comment.
pub fn line_is_comment(s: &str) -> (b: bool)
    ensures
        b == is_comment_line(s@),
{
    let n = s.unicode_len();
    let w = ws_run(s, 0);
    proof {
        assert(s@.skip(0) =~= s@);
    }
    if n - w < 3 {
        return false;
    }
    let c0 = s.get_char(w);
    let c1 = s.get_char(w + 1);
    let c2 = s.get_char(w + 2);
    c0 == '/' && c1 == '/' && (c2 == '/' || c2 == '!')
}

/// The comment marker text of a comment line: its leading whitespace
/// followed by `///` or `//!`.
pub fn comment_prefix_of(s: &str) -> (p: String)
    requires
        is_comment_line(s@),
    ensures
        p@ == comment_prefix(s@),
{
    let n = s.unicode_len();
    let w = ws_run(s, 0);
    proof {
        assert(s@.skip(0) =~= s@);
    }
    let pre = s.substring_char(0, w + 3);
    pre.to_owned()
}

/// Search for a `]` immediately followed by `:` anywhere at or after `from`.
fn find_close_colon(s: &str, from: usize) -> (b: bool)
    requires
        from <= s@.len(),
    ensures
        b == exists|j: int| from <= j && j + 1 < s@.len() && #[trigger] s@[j] == ']' && s@[j + 1] == ':',
{
    let n = s.unicode_len();
    let mut j = from;
    loop
        invariant
            from <= j <= n,
            n == s@.len(),
            forall|m: int| from <= m < j ==> !(#[trigger] s@[m] == ']' && s@[m + 1] == ':'),
        ensures
            j + 1 >= n,
            forall|m: int| from <= m < j ==> !(#[trigger] s@[m] == ']' && s@[m + 1] == ':'),
        decreases n - j,
    {
        if j >= n {
            break;
        }
        if j + 1 >= n {
            break;
        }
        if s.get_char(j) == ']' && s.get_char(j + 1) == ':' {
            return true;
        }
        j = j + 1;
    }
    false
}

/// Whether the line is a citation footnote definition.
#[verifier::rlimit(50)]
pub fn line_is_cite_footnote(s: &str) -> (b: bool)
    ensures
        b == is_cite_footnote(s@),
{
    if !line_is_comment(s) {
        return false;
    }
    let n = s.unicode_len();
    let w = ws_run(s, 0);
    proof {
        assert(s@.skip(0) =~= s@);
    }
    let g = ws_run(s, w + 3);
    let q = w + 3 + g;
    proof {
        assert(q == footnote_start(s@));
    }
    if n - q < 3 {
        return false;
    }
    if s.get_char(q) != '[' || s.get_char(q + 1) != '^' || s.get_char(q + 2) != '@' {
        return false;
    }
    find_close_colon(s, q + 3)
}

/// Whether the line is a footnote definition for any label.
#[verifier::rlimit(50)]
pub fn line_is_generic_footnote(s: &str) -> (b: bool)
    ensures
        b == is_generic_footnote(s@),
{
    if !line_is_comment(s) {
        return false;
    }
    let n = s.unicode_len();
    let w = ws_run(s, 0);
    proof {
        assert(s@.skip(0) =~= s@);
    }
    let g = ws_run(s, w + 3);
    let q = w + 3 + g;
    proof {
        assert(q == footnote_start(s@));
    }
    if n - q < 2 {
        return false;
    }
    if s.get_char(q) != '[' || s.get_char(q + 1) != '^' {
        return false;
    }
    find_close_colon(s, q + 2)
}

/// Strict lexicographic comparison of two strings, by code point.
pub fn str_lt(a: &str, b: &str) -> (r: bool)
    ensures
        r == lex_lt(a@, b@),
{
    let an = a.unicode_len();
    let bn = b.unicode_len();
    let mut i: usize = 0;
    proof {
        assert(a@.skip(0) =~= a@);
        assert(b@.skip(0) =~= b@);
    }
    while i < an && i < bn
        invariant
            i <= an,
            i <= bn,
            an == a@.len(),
            bn == b@.len(),
            lex_lt(a@, b@) == lex_lt(a@.skip(i as int), b@.skip(i as int)),
        decreases an - i,
    {
        let ca = a.get_char(i);
        let cb = b.get_char(i);
        if ca != cb {
            return (ca as u32) < (cb as u32);
        }
        proof {
            assert(a@.skip(i as int).skip(1) =~= a@.skip(i + 1));
            assert(b@.skip(i as int).skip(1) =~= b@.skip(i + 1));
        }
        i = i + 1;
    }
    i < bn
}

} // verus!
