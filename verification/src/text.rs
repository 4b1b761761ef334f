//! Character-level scanning primitives shared by the URL resolver, the
//! response parser and the entity table loader: first-occurrence search,
//! whitespace runs, ASCII case folding and decimal numerals, each as a spec
//! function with a verified executable counterpart.

use vstd::prelude::*;
use vstd::string::StrSliceExecFns;

verus! {

/// The ASCII whitespace characters, the separators this client recognizes
/// inside status lines and entity definitions.
pub open spec fn is_space(c: char) -> bool {
    c == ' ' || c == '\t' || c == '\r' || c == '\n' || c == '\u{b}' || c == '\u{c}'
}

pub fn is_space_x(c: char) -> (r: bool)
    ensures
        r == is_space(c),
{
    c == ' ' || c == '\t' || c == '\r' || c == '\n' || c == '\u{b}' || c == '\u{c}'
}

/// The index of the first occurrence of `c` at or after position `i`.
pub open spec fn find_from(s: Seq<char>, c: char, i: int) -> Option<int>
    decreases s.len() - i,
{
    if i >= s.len() {
        None
    } else if s[i] == c {
        Some(i)
    } else {
        find_from(s, c, i + 1)
    }
}

/// `find_from` returns exactly the first witness.
pub proof fn lemma_find_from_val(s: Seq<char>, c: char, i: int, j: int)
    requires
        0 <= i <= j < s.len(),
        s[j] == c,
        forall|k: int| i <= k < j ==> s[k] != c,
    ensures
        find_from(s, c, i) == Some(j),
    decreases j - i,
{
    if i < j {
        lemma_find_from_val(s, c, i + 1, j);
    }
}

/// Where no occurrence exists, `find_from` reports none.
pub proof fn lemma_find_from_none(s: Seq<char>, c: char, i: int)
    requires
        0 <= i,
        forall|k: int| i <= k < s.len() ==> s[k] != c,
    ensures
        find_from(s, c, i) is None,
    decreases s.len() - i,
{
    if i < s.len() {
        lemma_find_from_none(s, c, i + 1);
    }
}

/// What a `find_from` answer means, spelled out for callers.
pub proof fn lemma_find_from_props(s: Seq<char>, c: char, i: int)
    requires
        0 <= i <= s.len(),
    ensures
        match find_from(s, c, i) {
            Some(j) => i <= j < s.len() && s[j] == c && forall|k: int| i <= k < j ==> s[k] != c,
            None => forall|k: int| i <= k < s.len() ==> s[k] != c,
        },
    decreases s.len() - i,
{
    if i < s.len() && s[i] != c {
        lemma_find_from_props(s, c, i + 1);
    }
}

pub fn find_char_from(v: &Vec<char>, c: char, from: usize) -> (r: Option<usize>)
    requires
        from <= v@.len(),
    ensures
        match r {
            Some(j) => from <= j < v@.len() && find_from(v@, c, from as int) == Some(j as int),
            None => find_from(v@, c, from as int) is None,
        },
{
    let n = v.len();
    let mut i = from;
    while i < n
        invariant
            from <= i <= n,
            n == v@.len(),
            find_from(v@, c, from as int) == find_from(v@, c, i as int),
        decreases n - i,
    {
        if v[i] == c {
            return Some(i);
        }
        i += 1;
    }
    None
}

/// Texts that agree from position `n` on are searched identically from any
/// later position.
pub proof fn lemma_find_from_agree(s1: Seq<char>, s2: Seq<char>, c: char, i: int, n: int)
    requires
        0 <= n <= i,
        s1.len() == s2.len(),
        forall|k: int| n <= k < s1.len() ==> s1[k] == s2[k],
    ensures
        find_from(s1, c, i) == find_from(s2, c, i),
    decreases s1.len() - i,
{
    if i < s1.len() && s1[i] != c {
        lemma_find_from_agree(s1, s2, c, i + 1, n);
    }
}

/// The index of the first position at or after `i` whose character is not `c`.
pub open spec fn skip_char_run(s: Seq<char>, c: char, i: int) -> int
    decreases s.len() - i,
{
    if i >= s.len() {
        i
    } else if s[i] == c {
        skip_char_run(s, c, i + 1)
    } else {
        i
    }
}

pub proof fn lemma_skip_char_run_val(s: Seq<char>, c: char, i: int, j: int)
    requires
        0 <= i <= j <= s.len(),
        forall|k: int| i <= k < j ==> s[k] == c,
        j == s.len() || s[j] != c,
    ensures
        skip_char_run(s, c, i) == j,
    decreases j - i,
{
    if i < j {
        lemma_skip_char_run_val(s, c, i + 1, j);
    }
}

pub proof fn lemma_skip_char_run_props(s: Seq<char>, c: char, i: int)
    requires
        0 <= i <= s.len(),
    ensures
        i <= skip_char_run(s, c, i) <= s.len(),
        forall|k: int| i <= k < skip_char_run(s, c, i) ==> s[k] == c,
        skip_char_run(s, c, i) < s.len() ==> s[skip_char_run(s, c, i)] != c,
    decreases s.len() - i,
{
    if i < s.len() && s[i] == c {
        lemma_skip_char_run_props(s, c, i + 1);
    }
}

pub fn skip_char_run_x(v: &Vec<char>, c: char, from: usize) -> (r: usize)
    requires
        from <= v@.len(),
    ensures
        from <= r <= v@.len(),
        r as int == skip_char_run(v@, c, from as int),
{
    let n = v.len();
    let mut i = from;
    while i < n
        invariant
            from <= i <= n,
            n == v@.len(),
            skip_char_run(v@, c, from as int) == skip_char_run(v@, c, i as int),
        decreases n - i,
    {
        if v[i] != c {
            return i;
        }
        i += 1;
    }
    n
}

/// Texts that agree from position `n` on skip identical runs from any later
/// position.
pub proof fn lemma_skip_char_run_agree(s1: Seq<char>, s2: Seq<char>, c: char, i: int, n: int)
    requires
        0 <= n <= i,
        s1.len() == s2.len(),
        forall|k: int| n <= k < s1.len() ==> s1[k] == s2[k],
    ensures
        skip_char_run(s1, c, i) == skip_char_run(s2, c, i),
    decreases s1.len() - i,
{
    if i < s1.len() && s1[i] == c {
        lemma_skip_char_run_agree(s1, s2, c, i + 1, n);
    }
}

/// The index of the first non-whitespace position at or after `i`.
pub open spec fn skip_ws(s: Seq<char>, i: int) -> int
    decreases s.len() - i,
{
    if i >= s.len() {
        i
    } else if is_space(s[i]) {
        skip_ws(s, i + 1)
    } else {
        i
    }
}

pub proof fn lemma_skip_ws_val(s: Seq<char>, i: int, j: int)
    requires
        0 <= i <= j <= s.len(),
        forall|k: int| i <= k < j ==> is_space(s[k]),
        j == s.len() || !is_space(s[j]),
    ensures
        skip_ws(s, i) == j,
    decreases j - i,
{
    if i < j {
        lemma_skip_ws_val(s, i + 1, j);
    }
}

pub proof fn lemma_skip_ws_props(s: Seq<char>, i: int)
    requires
        0 <= i <= s.len(),
    ensures
        i <= skip_ws(s, i) <= s.len(),
        forall|k: int| i <= k < skip_ws(s, i) ==> is_space(s[k]),
        skip_ws(s, i) < s.len() ==> !is_space(s[skip_ws(s, i)]),
    decreases s.len() - i,
{
    if i < s.len() && is_space(s[i]) {
        lemma_skip_ws_props(s, i + 1);
    }
}

pub fn skip_ws_x(v: &Vec<char>, from: usize) -> (r: usize)
    requires
        from <= v@.len(),
    ensures
        from <= r <= v@.len(),
        r as int == skip_ws(v@, from as int),
{
    let n = v.len();
    let mut i = from;
    while i < n
        invariant
            from <= i <= n,
            n == v@.len(),
            skip_ws(v@, from as int) == skip_ws(v@, i as int),
        decreases n - i,
    {
        if !is_space_x(v[i]) {
            return i;
        }
        i += 1;
    }
    n
}

/// The index just past the whitespace-free token starting at `i`: the first
/// whitespace position at or after `i`, or the end of the text.
pub open spec fn scan_tok(s: Seq<char>, i: int) -> int
    decreases s.len() - i,
{
    if i >= s.len() {
        i
    } else if !is_space(s[i]) {
        scan_tok(s, i + 1)
    } else {
        i
    }
}

pub proof fn lemma_scan_tok_val(s: Seq<char>, i: int, j: int)
    requires
        0 <= i <= j <= s.len(),
        forall|k: int| i <= k < j ==> !is_space(s[k]),
        j == s.len() || is_space(s[j]),
    ensures
        scan_tok(s, i) == j,
    decreases j - i,
{
    if i < j {
        lemma_scan_tok_val(s, i + 1, j);
    }
}

pub proof fn lemma_scan_tok_props(s: Seq<char>, i: int)
    requires
        0 <= i <= s.len(),
    ensures
        i <= scan_tok(s, i) <= s.len(),
        forall|k: int| i <= k < scan_tok(s, i) ==> !is_space(s[k]),
        scan_tok(s, i) < s.len() ==> is_space(s[scan_tok(s, i)]),
    decreases s.len() - i,
{
    if i < s.len() && !is_space(s[i]) {
        lemma_scan_tok_props(s, i + 1);
    }
}

pub fn scan_tok_x(v: &Vec<char>, from: usize) -> (r: usize)
    requires
        from <= v@.len(),
    ensures
        from <= r <= v@.len(),
        r as int == scan_tok(v@, from as int),
{
    let n = v.len();
    let mut i = from;
    while i < n
        invariant
            from <= i <= n,
            n == v@.len(),
            scan_tok(v@, from as int) == scan_tok(v@, i as int),
        decreases n - i,
    {
        if is_space_x(v[i]) {
            return i;
        }
        i += 1;
    }
    n
}

/// Relies on `String::push`: it appends exactly the given character.
#[verifier::external_body]
pub(crate) fn push_char(s: &mut String, c: char)
    ensures
        final(s)@ == old(s)@.push(c),
{
    s.push(c);
}

/// The characters of a string slice, as a vector.
pub fn to_char_vec(s: &str) -> (v: Vec<char>)
    ensures
        v@ == s@,
{
    let n = s.unicode_len();
    let mut v: Vec<char> = Vec::new();
    let mut i: usize = 0;
    while i < n
        invariant
            i <= n,
            n == s@.len(),
            v@ == s@.take(i as int),
        decreases n - i,
    {
        let c = s.get_char(i);
        v.push(c);
        i += 1;
        proof {
            assert(v@ =~= s@.take(i as int));
        }
    }
    proof {
        assert(s@.take(n as int) =~= s@);
    }
    v
}

/// Appends the characters `v[from .. to]` to `dst`.
pub fn push_range(dst: &mut String, v: &Vec<char>, from: usize, to: usize)
    requires
        from <= to <= v@.len(),
    ensures
        final(dst)@ == old(dst)@ + v@.subrange(from as int, to as int),
{
    let mut i = from;
    while i < to
        invariant
            from <= i <= to <= v@.len(),
            dst@ == old(dst)@ + v@.subrange(from as int, i as int),
        decreases to - i,
    {
        push_char(dst, v[i]);
        i += 1;
        proof {
            assert(old(dst)@ + v@.subrange(from as int, i as int) =~= (old(dst)@ + v@.subrange(
                from as int,
                i - 1,
            )).push(v@[i - 1]));
        }
    }
    proof {
        assert(old(dst)@ + v@.subrange(from as int, from as int) =~= old(dst)@);
    }
}

/// The characters `v[from .. to]`, as a fresh string.
pub fn string_of_range(v: &Vec<char>, from: usize, to: usize) -> (s: String)
    requires
        from <= to <= v@.len(),
    ensures
        s@ == v@.subrange(from as int, to as int),
{
    let mut s = String::new();
    push_range(&mut s, v, from, to);
    proof {
        assert(Seq::<char>::empty() + v@.subrange(from as int, to as int) =~= v@.subrange(
            from as int,
            to as int,
        ));
    }
    s
}

/// The characters `v[from .. to]`, as a fresh vector.
pub fn subvec(v: &Vec<char>, from: usize, to: usize) -> (r: Vec<char>)
    requires
        from <= to <= v@.len(),
    ensures
        r@ == v@.subrange(from as int, to as int),
{
    let mut r: Vec<char> = Vec::new();
    let mut i = from;
    while i < to
        invariant
            from <= i <= to <= v@.len(),
            r@ == v@.subrange(from as int, i as int),
        decreases to - i,
    {
        r.push(v[i]);
        i += 1;
        proof {
            assert(r@ =~= v@.subrange(from as int, i as int));
        }
    }
    proof {
        assert(r@ =~= v@.subrange(from as int, to as int));
    }
    r
}

/// Whether two string slices spell the same characters.
pub fn str_eq_x(a: &str, b: &str) -> (r: bool)
    ensures
        r == (a@ == b@),
{
    let n = a.unicode_len();
    if n != b.unicode_len() {
        return false;
    }
    let mut i: usize = 0;
    while i < n
        invariant
            i <= n,
            n == a@.len() == b@.len(),
            forall|k: int| 0 <= k < i ==> a@[k] == b@[k],
        decreases n - i,
    {
        if a.get_char(i) != b.get_char(i) {
            return false;
        }
        i += 1;
    }
    proof {
        assert(a@ =~= b@);
    }
    true
}

/// ASCII case folding: an uppercase ASCII letter becomes its lowercase twin,
/// every other character is left alone.
pub open spec fn lower_char(c: char) -> char {
    match c {
        'A' => 'a',
        'B' => 'b',
        'C' => 'c',
        'D' => 'd',
        'E' => 'e',
        'F' => 'f',
        'G' => 'g',
        'H' => 'h',
        'I' => 'i',
        'J' => 'j',
        'K' => 'k',
        'L' => 'l',
        'M' => 'm',
        'N' => 'n',
        'O' => 'o',
        'P' => 'p',
        'Q' => 'q',
        'R' => 'r',
        'S' => 's',
        'T' => 't',
        'U' => 'u',
        'V' => 'v',
        'W' => 'w',
        'X' => 'x',
        'Y' => 'y',
        'Z' => 'z',
        _ => c,
    }
}

pub fn lower_char_x(c: char) -> (r: char)
    ensures
        r == lower_char(c),
{
    match c {
        'A' => 'a',
        'B' => 'b',
        'C' => 'c',
        'D' => 'd',
        'E' => 'e',
        'F' => 'f',
        'G' => 'g',
        'H' => 'h',
        'I' => 'i',
        'J' => 'j',
        'K' => 'k',
        'L' => 'l',
        'M' => 'm',
        'N' => 'n',
        'O' => 'o',
        'P' => 'p',
        'Q' => 'q',
        'R' => 'r',
        'S' => 's',
        'T' => 't',
        'U' => 'u',
        'V' => 'v',
        'W' => 'w',
        'X' => 'x',
        'Y' => 'y',
        'Z' => 'z',
        _ => c,
    }
}

/// ASCII case folding over a whole sequence.
pub open spec fn lower_seq(s: Seq<char>) -> Seq<char> {
    s.map_values(|c: char| lower_char(c))
}

/// A line with any single trailing carriage return removed, as the line
/// splitter does just before a line feed.
pub open spec fn chop_cr(l: Seq<char>) -> Seq<char> {
    if l.len() > 0 && l.last() == '\r' {
        l.drop_last()
    } else {
        l
    }
}

/// The scanner behind [`split_lines`]: the current line began at `start`, and
/// scanning continues at `i`. A line feed closes the current line (with any
/// carriage return before it removed); a final line without a terminator is
/// kept, and a trailing terminator opens no empty last line.
pub open spec fn lines_loop(s: Seq<char>, start: int, i: int) -> Seq<Seq<char>>
    decreases s.len() - i,
{
    if i >= s.len() {
        if start >= s.len() {
            Seq::<Seq<char>>::empty()
        } else {
            seq![s.subrange(start, s.len() as int)]
        }
    } else if s[i] == '\n' {
        seq![chop_cr(s.subrange(start, i))] + lines_loop(s, i + 1, i + 1)
    } else {
        lines_loop(s, start, i + 1)
    }
}

/// The lines of `s`, split at line feeds, each with a trailing carriage
/// return removed.
pub open spec fn split_lines(s: Seq<char>) -> Seq<Seq<char>> {
    lines_loop(s, 0, 0)
}

/// Splits a text into its lines.
pub fn split_lines_x(v: &Vec<char>) -> (r: Vec<Vec<char>>)
    ensures
        r.deep_view() == split_lines(v@),
{
    let n = v.len();
    let mut out: Vec<Vec<char>> = Vec::new();
    let mut start: usize = 0;
    let mut i: usize = 0;
    proof {
        assert(out.deep_view() =~= Seq::<Seq<char>>::empty());
        assert(Seq::<Seq<char>>::empty() + lines_loop(v@, 0, 0) =~= lines_loop(v@, 0, 0));
    }
    while i < n
        invariant
            start <= i <= n,
            n == v@.len(),
            split_lines(v@) == out.deep_view() + lines_loop(v@, start as int, i as int),
        decreases n - i,
    {
        if v[i] == '\n' {
            let line = if i > start && v[i - 1] == '\r' {
                subvec(v, start, i - 1)
            } else {
                subvec(v, start, i)
            };
            proof {
                if i > start && v@[i - 1] == '\r' {
                    assert(v@.subrange(start as int, i as int).last() == v@[i - 1]);
                    assert(v@.subrange(start as int, i as int).drop_last() =~= v@.subrange(
                        start as int,
                        i - 1,
                    ));
                    assert(line@ == chop_cr(v@.subrange(start as int, i as int)));
                } else {
                    if v@.subrange(start as int, i as int).len() > 0 {
                        assert(v@.subrange(start as int, i as int).last() == v@[i - 1]);
                    }
                    assert(line@ == chop_cr(v@.subrange(start as int, i as int)));
                }
            }
            let ghost prev = out.deep_view();
            out.push(line);
            proof {
                assert(out.deep_view() =~~= prev.push(line@));
                assert(prev.push(line@) + lines_loop(v@, i + 1, i + 1) =~= prev + (seq![chop_cr(
                    v@.subrange(start as int, i as int),
                )] + lines_loop(v@, i + 1, i + 1)));
            }
            start = i + 1;
        }
        i += 1;
    }
    if start < n {
        let line = subvec(v, start, n);
        let ghost prev = out.deep_view();
        out.push(line);
        proof {
            assert(out.deep_view() =~~= prev.push(line@));
            assert(prev.push(line@) =~= prev + seq![v@.subrange(start as int, n as int)]);
        }
    } else {
        proof {
            assert(out.deep_view() + lines_loop(v@, start as int, n as int) =~= out.deep_view());
        }
    }
    out
}

/// Scanning moves freely across a stretch that holds no line feed.
pub proof fn lemma_lines_loop_scan(s: Seq<char>, start: int, i: int, j: int)
    requires
        0 <= start,
        start <= i <= j <= s.len(),
        forall|k: int| i <= k < j ==> s[k] != '\n',
    ensures
        lines_loop(s, start, i) == lines_loop(s, start, j),
    decreases j - i,
{
    if i < j {
        lemma_lines_loop_scan(s, start, i + 1, j);
    }
}

/// Dropping a prefix that scanning has already left behind changes nothing.
pub proof fn lemma_lines_loop_shift(s: Seq<char>, n: int, start: int, i: int)
    requires
        0 <= n <= start <= i <= s.len(),
    ensures
        lines_loop(s, start, i) == lines_loop(s.skip(n), start - n, i - n),
    decreases s.len() - i,
{
    let t = s.skip(n);
    if i >= s.len() {
        if start < s.len() {
            assert(s.subrange(start, s.len() as int) =~= t.subrange(start - n, t.len() as int));
        }
    } else if s[i] == '\n' {
        assert(t[i - n] == s[i]);
        lemma_lines_loop_shift(s, n, i + 1, i + 1);
        assert(s.subrange(start, i) =~= t.subrange(start - n, i - n));
    } else {
        assert(t[i - n] == s[i]);
        lemma_lines_loop_shift(s, n, start, i + 1);
    }
}

/// Splitting peels off a leading CRLF-terminated line that holds no line
/// feed of its own.
pub proof fn lemma_split_lines_step(line: Seq<char>, rest: Seq<char>)
    requires
        forall|k: int| 0 <= k < line.len() ==> line[k] != '\n',
    ensures
        split_lines(line + "\r\n"@ + rest) == seq![line] + split_lines(rest),
{
    reveal_strlit("\r\n");
    let s = line + "\r\n"@ + rest;
    let ll = line.len() as int;
    assert(s[ll] == '\r');
    assert(s[ll + 1] == '\n');
    assert forall|k: int| 0 <= k < ll + 1 implies s[k] != '\n' by {
        if k < ll {
            assert(s[k] == line[k]);
        }
    }
    lemma_lines_loop_scan(s, 0, 0, ll + 1);
    assert(lines_loop(s, 0, ll + 1) == seq![chop_cr(s.subrange(0, ll + 1))] + lines_loop(
        s,
        ll + 2,
        ll + 2,
    ));
    assert(s.subrange(0, ll + 1) =~= line + seq!['\r']);
    assert(chop_cr(line + seq!['\r']) =~= line);
    lemma_lines_loop_shift(s, ll + 2, ll + 2, ll + 2);
    assert(s.skip(ll + 2) =~= rest);
}

/// The characters `v[from .. to]` folded to lowercase, as a fresh string.
pub fn lower_string_of_range(v: &Vec<char>, from: usize, to: usize) -> (s: String)
    requires
        from <= to <= v@.len(),
    ensures
        s@ == lower_seq(v@.subrange(from as int, to as int)),
{
    let ghost tok = v@.subrange(from as int, to as int);
    let mut s = String::new();
    let mut i = from;
    while i < to
        invariant
            from <= i <= to <= v@.len(),
            tok == v@.subrange(from as int, to as int),
            s@.len() == i - from,
            forall|k: int| 0 <= k < i - from ==> s@[k] == lower_char(tok[k]),
        decreases to - i,
    {
        push_char(&mut s, lower_char_x(v[i]));
        i += 1;
    }
    proof {
        assert(s@ =~= lower_seq(tok));
    }
    s
}

/// The decimal digits.
pub open spec fn is_digit(c: char) -> bool {
    48 <= c as u32 && c as u32 <= 57
}

pub open spec fn digit_val(c: char) -> int {
    c as u32 - 48
}

pub open spec fn all_digits(s: Seq<char>) -> bool {
    forall|i: int| 0 <= i < s.len() ==> is_digit(#[trigger] s[i])
}

/// The numeric value of a digit string, most significant digit first.
pub open spec fn dec_val(s: Seq<char>) -> int
    decreases s.len(),
{
    if s.len() == 0 {
        0
    } else {
        dec_val(s.drop_last()) * 10 + digit_val(s.last())
    }
}

/// A non-empty all-digit numeral whose value is at most `bound`.
pub open spec fn is_dec_bounded(s: Seq<char>, bound: int) -> bool {
    s.len() > 0 && all_digits(s) && dec_val(s) <= bound
}

/// A digit string's value dominates the value of each of its prefixes.
pub proof fn lemma_dec_val_prefix(s: Seq<char>, k: int)
    requires
        0 <= k <= s.len(),
        all_digits(s),
    ensures
        0 <= dec_val(s.take(k)) <= dec_val(s),
    decreases s.len(),
{
    if s.len() == 0 {
        assert(s.take(k) =~= s);
    } else if k == s.len() {
        assert(s.take(k) =~= s);
        lemma_dec_val_prefix(s.drop_last(), s.len() - 1);
        assert(s.drop_last().take(s.len() - 1) =~= s.drop_last());
    } else {
        assert(forall|i: int|
            0 <= i < s.drop_last().len() ==> is_digit(#[trigger] s.drop_last()[i]));
        lemma_dec_val_prefix(s.drop_last(), k);
        assert(s.drop_last().take(k) =~= s.take(k));
    }
}

/// The digit character for a value in `0 ..= 9`.
pub open spec fn digit_char(d: int) -> char {
    if d == 0 {
        '0'
    } else if d == 1 {
        '1'
    } else if d == 2 {
        '2'
    } else if d == 3 {
        '3'
    } else if d == 4 {
        '4'
    } else if d == 5 {
        '5'
    } else if d == 6 {
        '6'
    } else if d == 7 {
        '7'
    } else if d == 8 {
        '8'
    } else {
        '9'
    }
}

/// The shortest decimal numeral for a non-negative value.
pub open spec fn dec_str(n: int) -> Seq<char>
    decreases n,
{
    if n <= 9 {
        seq![digit_char(n)]
    } else {
        dec_str(n / 10) + seq![digit_char(n % 10)]
    }
}

/// `dec_str` writes digits only, and `dec_val` reads the value back.
pub proof fn lemma_dec_str_digits(n: int)
    requires
        0 <= n,
    ensures
        dec_str(n).len() >= 1,
        all_digits(dec_str(n)),
        dec_val(dec_str(n)) == n,
    decreases n,
{
    if n <= 9 {
        assert(dec_val(dec_str(n)) == dec_val(Seq::<char>::empty()) * 10 + digit_val(digit_char(n)))
            by {
            assert(dec_str(n).drop_last() =~= Seq::<char>::empty());
        }
    } else {
        lemma_dec_str_digits(n / 10);
        let w = dec_str(n / 10);
        let d = digit_char(n % 10);
        assert((w + seq![d]).drop_last() =~= w);
        assert(dec_val(w + seq![d]) == dec_val(w) * 10 + digit_val(d));
        assert(forall|i: int| 0 <= i < (w + seq![d]).len() ==> is_digit(#[trigger] (w + seq![d])[i]))
            by {
            assert(forall|i: int| 0 <= i < w.len() ==> (w + seq![d])[i] == w[i]);
        }
    }
}

pub fn digit_char_x(d: u16) -> (c: char)
    requires
        d <= 9,
    ensures
        c == digit_char(d as int),
{
    if d == 0 {
        '0'
    } else if d == 1 {
        '1'
    } else if d == 2 {
        '2'
    } else if d == 3 {
        '3'
    } else if d == 4 {
        '4'
    } else if d == 5 {
        '5'
    } else if d == 6 {
        '6'
    } else if d == 7 {
        '7'
    } else if d == 8 {
        '8'
    } else {
        '9'
    }
}

/// Appends the decimal numeral of `n` to `s`.
pub fn push_dec_u16(s: &mut String, n: u16)
    ensures
        final(s)@ == old(s)@ + dec_str(n as int),
    decreases n,
{
    if n <= 9 {
        push_char(s, digit_char_x(n));
        proof {
            assert(old(s)@.push(digit_char(n as int)) =~= old(s)@ + dec_str(n as int));
        }
    } else {
        push_dec_u16(s, n / 10);
        push_char(s, digit_char_x(n % 10));
        proof {
            assert((old(s)@ + dec_str(n as int / 10)).push(digit_char(n as int % 10)) =~= old(s)@
                + dec_str(n as int));
        }
    }
}

/// Reads `v[from .. to]` as a decimal numeral, rejecting empty or non-digit
/// tokens and values above `bound`.
pub fn parse_dec_bounded(v: &Vec<char>, from: usize, to: usize, bound: u64) -> (r: Option<u64>)
    requires
        from <= to <= v@.len(),
        bound <= 0xFFFF_FFFF,
    ensures
        match r {
            Some(x) => is_dec_bounded(v@.subrange(from as int, to as int), bound as int) && x
                == dec_val(v@.subrange(from as int, to as int)),
            None => !is_dec_bounded(v@.subrange(from as int, to as int), bound as int),
        },
{
    let ghost whole = v@.subrange(from as int, to as int);
    if from == to {
        return None;
    }
    let mut acc: u64 = 0;
    let mut i = from;
    while i < to
        invariant
            from <= i <= to <= v@.len(),
            bound <= 0xFFFF_FFFF,
            whole == v@.subrange(from as int, to as int),
            acc <= bound,
            all_digits(v@.subrange(from as int, i as int)),
            acc == dec_val(v@.subrange(from as int, i as int)),
        decreases to - i,
    {
        let c = v[i];
        let u = c as u32;
        proof {
            assert(whole[i - from] == v@[i as int]);
        }
        if u < 48 || u > 57 {
            return None;
        }
        let d = (u - 48) as u64;
        let next = acc * 10 + d;
        proof {
            let pre = v@.subrange(from as int, i as int);
            let ext = v@.subrange(from as int, i + 1);
            assert(ext.drop_last() =~= pre);
            assert(ext.last() == v@[i as int]);
            assert(dec_val(ext) == dec_val(pre) * 10 + digit_val(v@[i as int]));
        }
        if next > bound {
            proof {
                if is_dec_bounded(whole, bound as int) {
                    lemma_dec_val_prefix(whole, i + 1 - from);
                    assert(whole.take(i + 1 - from) =~= v@.subrange(from as int, i + 1));
                }
            }
            return None;
        }
        acc = next;
        i += 1;
    }
    proof {
        assert(whole =~= v@.subrange(from as int, to as int));
    }
    Some(acc)
}

} // verus!
