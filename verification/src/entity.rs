//! Named character references: a table of `(name, codepoints)` pairs loaded
//! from a textual definition source, and a greedy longest-prefix decoder that
//! consumes characters while some table name still extends the consumed
//! prefix, then succeeds only on an exact name match. The greedy scan does
//! not backtrack: a failed long extension is not retried at a shorter prefix.

use vstd::prelude::*;
use vstd::utf8::{char_u32_cast, is_scalar};

use crate::text::{
    dec_val, is_dec_bounded, parse_dec_bounded, push_char, scan_tok, scan_tok_x, skip_ws,
    skip_ws_x, split_lines, split_lines_x, subvec, to_char_vec,
};
use crate::{ConfigError, FetchError};

verus! {

/// Relies on `char::from_u32`: it returns the character of any valid Unicode
/// scalar value (not a surrogate, at most 0x10FFFF), and nothing otherwise.
pub assume_specification[ char::from_u32 ](i: u32) -> (r: Option<char>)
    ensures
        match r {
            Some(c) => is_scalar(i) && c as u32 == i,
            None => !is_scalar(i),
        },
;

/// The decoded text of a codepoint sequence: each valid Unicode scalar value
/// becomes its character, invalid values are dropped.
pub open spec fn decode_cps(cps: Seq<u32>) -> Seq<char>
    decreases cps.len(),
{
    if cps.len() == 0 {
        Seq::<char>::empty()
    } else {
        (if is_scalar(cps[0]) {
            seq![cps[0] as char]
        } else {
            Seq::<char>::empty()
        }) + decode_cps(cps.drop_first())
    }
}

/// The codepoints read from the whitespace-separated tokens of a definition
/// line, starting at `i`: each token that is a decimal 32-bit unsigned
/// integer contributes its value, any other token is silently skipped.
pub open spec fn cps_from(l: Seq<char>, i: int) -> Seq<u32>
    decreases l.len() - i,
    when 0 <= i <= l.len()
    via cps_from_dec
{
    let a = skip_ws(l, i);
    if a >= l.len() {
        Seq::<u32>::empty()
    } else {
        let b = scan_tok(l, a);
        (if is_dec_bounded(l.subrange(a, b), 0xFFFF_FFFF) {
            seq![dec_val(l.subrange(a, b)) as u32]
        } else {
            Seq::<u32>::empty()
        }) + cps_from(l, b)
    }
}

#[via_fn]
proof fn cps_from_dec(l: Seq<char>, i: int) {
    crate::text::lemma_skip_ws_props(l, i);
    let a = skip_ws(l, i);
    if a < l.len() {
        crate::text::lemma_scan_tok_props(l, a);
    }
}

/// The table entry read from one definition line: the first token is the
/// entity's name, the rest its codepoints. A line with no token at all
/// carries no name and is a configuration error.
pub open spec fn line_entry(l: Seq<char>) -> Option<(Seq<char>, Seq<u32>)> {
    let a = skip_ws(l, 0);
    if a >= l.len() {
        None
    } else {
        let b = scan_tok(l, a);
        Some((l.subrange(a, b), cps_from(l, b)))
    }
}

/// Whether every definition line carries an entity name.
pub open spec fn all_named(lines: Seq<Seq<char>>) -> bool {
    forall|i: int| 0 <= i < lines.len() ==> line_entry(#[trigger] lines[i]) is Some
}

/// The table entries of the definition lines from `i` on, in source order.
pub open spec fn entries_spec(lines: Seq<Seq<char>>, i: int) -> Seq<(Seq<char>, Seq<u32>)>
    decreases lines.len() - i,
{
    if i >= lines.len() {
        Seq::<(Seq<char>, Seq<u32>)>::empty()
    } else {
        (match line_entry(lines[i]) {
            Some(en) => seq![en],
            None => Seq::<(Seq<char>, Seq<u32>)>::empty(),
        }) + entries_spec(lines, i + 1)
    }
}

/// Whether some table name still starts with `input[start .. p + 1]`: the
/// test that lets the greedy scan consume one more character.
pub open spec fn can_extend(
    table: Seq<(Seq<char>, Seq<u32>)>,
    input: Seq<char>,
    start: int,
    p: int,
) -> bool {
    exists|e: int|
        0 <= e < table.len() && input.subrange(start, p + 1).is_prefix_of((#[trigger] table[e]).0)
}

/// Where the greedy scan that has consumed `input[start .. p]` stops: it
/// consumes while the input lasts and some name still extends the prefix.
pub open spec fn grow_from(
    table: Seq<(Seq<char>, Seq<u32>)>,
    input: Seq<char>,
    start: int,
    p: int,
) -> int
    decreases input.len() - p,
{
    if p >= input.len() {
        p
    } else if can_extend(table, input, start, p) {
        grow_from(table, input, start, p + 1)
    } else {
        p
    }
}

/// One past the last input position the greedy scan consumes.
pub open spec fn match_end(table: Seq<(Seq<char>, Seq<u32>)>, input: Seq<char>, start: int) -> int {
    grow_from(table, input, start, start)
}

/// The first table entry holding `name`, scanning from `i`.
pub open spec fn lookup_from(table: Seq<(Seq<char>, Seq<u32>)>, name: Seq<char>, i: int) -> Option<
    int,
>
    decreases table.len() - i,
{
    if i >= table.len() {
        None
    } else if table[i].0 == name {
        Some(i)
    } else {
        lookup_from(table, name, i + 1)
    }
}

/// The first table entry holding `name`.
pub open spec fn lookup(table: Seq<(Seq<char>, Seq<u32>)>, name: Seq<char>) -> Option<int> {
    lookup_from(table, name, 0)
}

/// Whether `input[from .. to]` is a prefix of `name`.
fn range_is_prefix(input: &Vec<char>, from: usize, to: usize, name: &Vec<char>) -> (r: bool)
    requires
        from <= to <= input@.len(),
    ensures
        r == input@.subrange(from as int, to as int).is_prefix_of(name@),
{
    let ghost sub = input@.subrange(from as int, to as int);
    let k = to - from;
    if k > name.len() {
        return false;
    }
    let mut i: usize = 0;
    while i < k
        invariant
            i <= k,
            from + k == to,
            to <= input@.len(),
            k <= name@.len(),
            sub == input@.subrange(from as int, to as int),
            forall|j: int| 0 <= j < i ==> sub[j] == name@[j],
        decreases k - i,
    {
        if input[from + i] != name[i] {
            proof {
                assert(sub[i as int] != name@[i as int]);
                assert(!sub.is_prefix_of(name@)) by {
                    if sub.is_prefix_of(name@) {
                        assert(sub[i as int] == name@.subrange(0, sub.len() as int)[i as int]);
                    }
                }
            }
            return false;
        }
        i += 1;
    }
    proof {
        assert(sub =~= name@.subrange(0, sub.len() as int));
    }
    true
}

/// Whether `input[from .. to]` spells exactly `name`.
fn range_eq(input: &Vec<char>, from: usize, to: usize, name: &Vec<char>) -> (r: bool)
    requires
        from <= to <= input@.len(),
    ensures
        r == (input@.subrange(from as int, to as int) == name@),
{
    let ghost sub = input@.subrange(from as int, to as int);
    if to - from != name.len() {
        return false;
    }
    let r = range_is_prefix(input, from, to, name);
    proof {
        if r {
            assert(name@.subrange(0, sub.len() as int) =~= name@);
        } else {
            if sub == name@ {
                assert(sub.is_prefix_of(name@));
            }
        }
    }
    r
}

/// The table of named character references, in definition-source order.
pub struct EntityParser {
    entries: Vec<(Vec<char>, Vec<u32>)>,
}

impl View for EntityParser {
    type V = Seq<(Seq<char>, Seq<u32>)>;

    closed spec fn view(&self) -> Seq<(Seq<char>, Seq<u32>)> {
        self.entries.deep_view()
    }
}

/// Whether some entry's name still starts with `input[from .. to]`.
fn can_extend_x(
    entries: &Vec<(Vec<char>, Vec<u32>)>,
    input: &Vec<char>,
    from: usize,
    to: usize,
) -> (r: bool)
    requires
        from <= to <= input@.len(),
    ensures
        r == (exists|e: int|
            0 <= e < entries.deep_view().len() && input@.subrange(from as int, to as int).is_prefix_of(
                (#[trigger] entries.deep_view()[e]).0,
            )),
{
    let n = entries.len();
    let mut j: usize = 0;
    while j < n
        invariant
            j <= n,
            n == entries@.len(),
            from <= to <= input@.len(),
            forall|e: int|
                0 <= e < j ==> !input@.subrange(from as int, to as int).is_prefix_of(
                    (#[trigger] entries.deep_view()[e]).0,
                ),
        decreases n - j,
    {
        let ent = &entries[j];
        if range_is_prefix(input, from, to, &ent.0) {
            proof {
                assert(entries.deep_view()[j as int].0 == ent.0@);
            }
            return true;
        }
        j += 1;
    }
    false
}

/// Finds the first entry whose name is exactly `input[from .. to]`.
fn lookup_x(
    entries: &Vec<(Vec<char>, Vec<u32>)>,
    input: &Vec<char>,
    from: usize,
    to: usize,
) -> (r: Option<usize>)
    requires
        from <= to <= input@.len(),
    ensures
        ({
            let name = input@.subrange(from as int, to as int);
            match r {
                Some(t) => t < entries@.len() && lookup_from(entries.deep_view(), name, 0) == Some(
                    t as int,
                ),
                None => lookup_from(entries.deep_view(), name, 0) is None,
            }
        }),
{
    let ghost name = input@.subrange(from as int, to as int);
    let n = entries.len();
    let mut j: usize = 0;
    while j < n
        invariant
            j <= n,
            n == entries@.len(),
            from <= to <= input@.len(),
            name == input@.subrange(from as int, to as int),
            lookup_from(entries.deep_view(), name, 0) == lookup_from(
                entries.deep_view(),
                name,
                j as int,
            ),
        decreases n - j,
    {
        let ent = &entries[j];
        proof {
            assert(entries.deep_view()[j as int].0 == ent.0@);
        }
        if range_eq(input, from, to, &ent.0) {
            return Some(j);
        }
        j += 1;
    }
    None
}

impl EntityParser {
    /// The character of a single codepoint, when it is a valid Unicode
    /// scalar value.
    pub fn parse_unicode(unicode: u32) -> (r: Option<char>)
        ensures
            match r {
                Some(c) => is_scalar(unicode) && c as u32 == unicode,
                None => !is_scalar(unicode),
            },
    {
        char::from_u32(unicode)
    }

    /// Loads the table from its textual definition: one entity per line, the
    /// name first, then its codepoints as decimal numbers. Fails exactly when
    /// a line carries no name at all; a token that is no codepoint is skipped.
    pub fn new(source: &str) -> (r: Result<EntityParser, FetchError>)
        ensures
            match r {
                Ok(p) => all_named(split_lines(source@)) && p@ == entries_spec(
                    split_lines(source@),
                    0,
                ),
                Err(e) => !all_named(split_lines(source@)) && e == FetchError::Config(
                    ConfigError::MissingEntityName,
                ),
            },
    {
        let v = to_char_vec(source);
        let lines = split_lines_x(&v);
        let ghost ldv = lines.deep_view();
        let nl = lines.len();
        let mut entries: Vec<(Vec<char>, Vec<u32>)> = Vec::new();
        let mut i: usize = 0;
        proof {
            assert(entries.deep_view() =~= Seq::<(Seq<char>, Seq<u32>)>::empty());
            assert(Seq::<(Seq<char>, Seq<u32>)>::empty() + entries_spec(ldv, 0) =~= entries_spec(
                ldv,
                0,
            ));
        }
        while i < nl
            invariant
                i <= nl,
                nl == lines@.len(),
                ldv == lines.deep_view(),
                ldv == split_lines(source@),
                ldv.len() == nl,
                entries_spec(ldv, 0) == entries.deep_view() + entries_spec(ldv, i as int),
                forall|k: int| 0 <= k < i ==> line_entry(#[trigger] ldv[k]) is Some,
            decreases nl - i,
        {
            let l = &lines[i];
            proof {
                assert(l@ =~= ldv[i as int]);
            }
            let le = l.len();
            let a = skip_ws_x(l, 0);
            if a == le {
                proof {
                    assert(line_entry(ldv[i as int]) is None);
                    assert(!all_named(ldv));
                }
                return Err(FetchError::Config(ConfigError::MissingEntityName));
            }
            let b = scan_tok_x(l, a);
            let name = subvec(l, a, b);
            let mut cps: Vec<u32> = Vec::new();
            let mut j = b;
            proof {
                assert(Seq::<u32>::empty() + cps_from(l@, b as int) =~= cps_from(l@, b as int));
            }
            // each pass consumes at least the token's first character
            while j < le
                invariant
                    b <= j <= le,
                    le == l@.len(),
                    cps_from(l@, b as int) == cps@ + cps_from(l@, j as int),
                decreases le - j,
            {
                let a2 = skip_ws_x(l, j);
                if a2 == le {
                    proof {
                        assert(cps_from(l@, j as int) =~= Seq::<u32>::empty());
                        assert(cps@ + Seq::<u32>::empty() =~= cps@);
                    }
                    j = le;
                } else {
                    let b2 = scan_tok_x(l, a2);
                    proof {
                        crate::text::lemma_skip_ws_props(l@, j as int);
                        crate::text::lemma_scan_tok_props(l@, a2 as int);
                    }
                    let ghost prev = cps@;
                    match parse_dec_bounded(l, a2, b2, 0xFFFF_FFFF) {
                        Some(x) => {
                            cps.push(x as u32);
                            proof {
                                assert(cps@ + cps_from(l@, b2 as int) =~= prev + (seq![
                                    dec_val(l@.subrange(a2 as int, b2 as int)) as u32,
                                ] + cps_from(l@, b2 as int)));
                            }
                        },
                        None => {
                            proof {
                                assert(cps@ + cps_from(l@, b2 as int) =~= prev + (Seq::<
                                    u32,
                                >::empty() + cps_from(l@, b2 as int)));
                            }
                        },
                    }
                    j = b2;
                }
            }
            proof {
                assert(cps_from(l@, j as int) =~= Seq::<u32>::empty());
                assert(cps@ =~= cps_from(l@, b as int));
            }
            let ghost prev = entries.deep_view();
            entries.push((name, cps));
            proof {
                assert(entries.deep_view() =~~= prev.push((name@, cps@)));
                assert(line_entry(ldv[i as int]) == Some((name@, cps@)));
                assert(prev.push((name@, cps@)) + entries_spec(ldv, i + 1) =~= prev + (seq![
                    (name@, cps@),
                ] + entries_spec(ldv, i + 1)));
            }
            i += 1;
        }
        proof {
            assert(entries.deep_view() + entries_spec(ldv, nl as int) =~= entries.deep_view());
        }
        Ok(EntityParser { entries })
    }

    /// The decoded text of the first entry holding `name`, if any.
    fn execute(&self, name: &Vec<char>) -> (r: Option<String>)
        ensures
            match lookup(self@, name@) {
                Some(t) => r is Some && r->0@ == decode_cps(self@[t].1),
                None => r is None,
            },
    {
        proof {
            assert(name@.subrange(0, name@.len() as int) =~= name@);
        }
        let t = match lookup_x(&self.entries, name, 0, name.len()) {
            None => {
                return None;
            },
            Some(t) => t,
        };
        let ent = &self.entries[t];
        let cps = &ent.1;
        proof {
            assert(self@[t as int].1 =~= cps@);
        }
        let m = cps.len();
        let mut out = String::new();
        let mut k: usize = 0;
        proof {
            assert(cps@.skip(0) =~= cps@);
            assert(Seq::<char>::empty() + decode_cps(cps@) =~= decode_cps(cps@));
        }
        while k < m
            invariant
                k <= m,
                m == cps@.len(),
                decode_cps(cps@) == out@ + decode_cps(cps@.skip(k as int)),
            decreases m - k,
        {
            let cp = cps[k];
            proof {
                assert(cps@.skip(k as int)[0] == cps@[k as int]);
                assert(cps@.skip(k as int).drop_first() =~= cps@.skip(k + 1));
            }
            let ghost prev = out@;
            match Self::parse_unicode(cp) {
                Some(ch) => {
                    proof {
                        char_u32_cast(ch, cp);
                    }
                    push_char(&mut out, ch);
                    proof {
                        assert(out@ + decode_cps(cps@.skip(k + 1)) =~= prev + (seq![ch]
                            + decode_cps(cps@.skip(k + 1))));
                    }
                },
                None => {
                    proof {
                        assert(out@ + decode_cps(cps@.skip(k + 1)) =~= prev + (Seq::<
                            char,
                        >::empty() + decode_cps(cps@.skip(k + 1))));
                    }
                },
            }
            k += 1;
        }
        proof {
            assert(cps@.skip(m as int) =~= Seq::<u32>::empty());
            assert(out@ + decode_cps(cps@.skip(m as int)) =~= out@);
        }
        Some(out)
    }

    /// Greedily consumes the longest prefix of `input[start ..]` that some
    /// entity name still extends, and decodes it on an exact name match. The
    /// returned position is one past the consumed prefix; when no name
    /// matches the first character, nothing is consumed.
    pub fn consume(&self, input: &Vec<char>, start: usize) -> (r: (Option<String>, usize))
        requires
            start <= input@.len(),
        ensures
            ({
                let e = match_end(self@, input@, start as int);
                &&& r.1 == e
                &&& start <= e <= input@.len()
                &&& match lookup(self@, input@.subrange(start as int, e)) {
                    Some(t) => r.0 is Some && r.0->0@ == decode_cps(self@[t].1),
                    None => r.0 is None,
                }
            }),
    {
        let n = input.len();
        let mut pos = start;
        let mut done = false;
        while !done && pos < n
            invariant
                start <= pos <= n,
                n == input@.len(),
                match_end(self@, input@, start as int) == grow_from(
                    self@,
                    input@,
                    start as int,
                    pos as int,
                ),
                done ==> grow_from(self@, input@, start as int, pos as int) == pos,
            decreases n - pos, if done { 0int } else { 1int },
        {
            if can_extend_x(&self.entries, input, start, pos + 1) {
                proof {
                    assert(can_extend(self@, input@, start as int, pos as int));
                }
                pos += 1;
            } else {
                proof {
                    assert(!can_extend(self@, input@, start as int, pos as int));
                }
                done = true;
            }
        }
        let acc = subvec(input, start, pos);
        let out = self.execute(&acc);
        (out, pos)
    }
}

} // verus!
