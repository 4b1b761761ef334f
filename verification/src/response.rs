//! Strict response parsing: the raw response text is split into lines, the
//! status line into version, code and reason, header lines into a lowercased
//! last-write-wins mapping, and the remainder into the body. Responses that
//! declare a transfer or content encoding are rejected outright.

use vstd::prelude::*;

use crate::text::{
    dec_str, dec_val, is_dec_bounded, is_space, lemma_dec_str_digits, lower_seq,
    lower_string_of_range, parse_dec_bounded, push_range, scan_tok, scan_tok_x, skip_ws,
    skip_ws_x, split_lines, split_lines_x, string_of_range, str_eq_x, to_char_vec,
};
use crate::{FetchError, ProtocolError};

verus! {

/// The position of the first `": "` in a header line, the separator between
/// name and value.
pub open spec fn find_sep(l: Seq<char>, i: int) -> Option<int>
    decreases l.len() - i,
{
    if i + 2 > l.len() {
        None
    } else if l[i] == ':' && l[i + 1] == ' ' {
        Some(i)
    } else {
        find_sep(l, i + 1)
    }
}

/// A header line split at its first `": "`: the name lowercased for lookup,
/// the value as written. A line without the separator yields nothing and is
/// silently dropped.
pub open spec fn header_split(l: Seq<char>) -> Option<(Seq<char>, Seq<char>)> {
    match find_sep(l, 0) {
        None => None,
        Some(p) => Some((lower_seq(l.take(p)), l.subrange(p + 2, l.len() as int))),
    }
}

/// The index of the first empty line at or after `i`, or the number of lines.
pub open spec fn first_empty(lines: Seq<Seq<char>>, i: int) -> int
    decreases lines.len() - i,
{
    if i >= lines.len() {
        lines.len() as int
    } else if lines[i].len() == 0 {
        i
    } else {
        first_empty(lines, i + 1)
    }
}

/// Where the first empty line lies: between `i` and the number of lines, at
/// an empty line if one exists, with none before it.
pub proof fn lemma_first_empty_props(lines: Seq<Seq<char>>, i: int)
    requires
        0 <= i <= lines.len(),
    ensures
        i <= first_empty(lines, i) <= lines.len(),
        first_empty(lines, i) < lines.len() ==> lines[first_empty(lines, i)].len() == 0,
        forall|k: int| i <= k < first_empty(lines, i) ==> (#[trigger] lines[k]).len() != 0,
    decreases lines.len() - i,
{
    if i < lines.len() && lines[i].len() != 0 {
        lemma_first_empty_props(lines, i + 1);
    }
}

/// The header mapping accumulated from `lines[i .. stop]`, inserted in line
/// order so that a repeated name keeps its last value.
pub open spec fn headers_from(
    lines: Seq<Seq<char>>,
    i: int,
    stop: int,
    acc: Map<Seq<char>, Seq<char>>,
) -> Map<Seq<char>, Seq<char>>
    decreases stop - i,
{
    if i >= stop {
        acc
    } else {
        let acc2 = match header_split(lines[i]) {
            None => acc,
            Some(kv) => acc.insert(kv.0, kv.1),
        };
        headers_from(lines, i + 1, stop, acc2)
    }
}

/// The header mapping of a whole response: the lines after the status line,
/// up to the first empty line.
pub open spec fn spec_headers(lines: Seq<Seq<char>>) -> Map<Seq<char>, Seq<char>> {
    headers_from(lines, 1, first_empty(lines, 1), Map::empty())
}

/// The lines from `i` on, rejoined with CRLF: the reconstructed body.
pub open spec fn join_crlf(lines: Seq<Seq<char>>, i: int) -> Seq<char>
    decreases lines.len() - i,
{
    if i >= lines.len() {
        Seq::<char>::empty()
    } else {
        lines[i] + tail_crlf(lines, i + 1)
    }
}

/// The lines from `i` on, each preceded by CRLF.
pub open spec fn tail_crlf(lines: Seq<Seq<char>>, i: int) -> Seq<char>
    decreases lines.len() - i,
{
    if i >= lines.len() {
        Seq::<char>::empty()
    } else {
        "\r\n"@ + lines[i] + tail_crlf(lines, i + 1)
    }
}

/// The mathematical shape of a parsed response.
#[verifier::ext_equal]
pub struct ResponseModel {
    pub version: Seq<char>,
    pub status_code: u16,
    pub explanation: Seq<char>,
    pub headers: Map<Seq<char>, Seq<char>>,
    pub body: Seq<char>,
}

/// What parsing a raw response text yields: the status line must carry a
/// version token, a decimal 16-bit status code and a reason token (only the
/// first word of a multi-word reason is kept); headers run to the first empty
/// line; a declared transfer or content encoding is rejected; the rest is the
/// body, rejoined with CRLF.
pub open spec fn parse_spec(s: Seq<char>) -> Result<ResponseModel, FetchError> {
    let lines = split_lines(s);
    if lines.len() == 0 {
        Err(FetchError::Protocol(ProtocolError::MissingStatus))
    } else {
        let l = lines[0];
        let a = skip_ws(l, 0);
        let b = scan_tok(l, a);
        if a >= l.len() {
            Err(FetchError::Protocol(ProtocolError::MissingVersion))
        } else {
            let c = skip_ws(l, b);
            let d = scan_tok(l, c);
            if c >= l.len() {
                Err(FetchError::Protocol(ProtocolError::MissingStatusCode))
            } else if !is_dec_bounded(l.subrange(c, d), 65535) {
                Err(FetchError::Protocol(ProtocolError::InvalidStatusCode))
            } else {
                let e = skip_ws(l, d);
                let f = scan_tok(l, e);
                if e >= l.len() {
                    Err(FetchError::Protocol(ProtocolError::MissingExplanation))
                } else {
                    let hm = spec_headers(lines);
                    if hm.contains_key("transfer-encoding"@) {
                        Err(FetchError::Protocol(ProtocolError::UnsupportedTransferEncoding))
                    } else if hm.contains_key("content-encoding"@) {
                        Err(FetchError::Protocol(ProtocolError::UnsupportedContentEncoding))
                    } else {
                        Ok(
                            ResponseModel {
                                version: l.subrange(a, b),
                                status_code: dec_val(l.subrange(c, d)) as u16,
                                explanation: l.subrange(e, f),
                                headers: hm,
                                body: join_crlf(lines, first_empty(lines, 1) + 1),
                            },
                        )
                    }
                }
            }
        }
    }
}

/// A response that declares a transfer or content encoding is never parsed
/// successfully, however the rest of it looks. The header names are matched
/// after lowercasing, so the rejection is case-insensitive.
pub proof fn lemma_rejects_encodings(s: Seq<char>)
    requires
        spec_headers(split_lines(s)).contains_key("transfer-encoding"@) || spec_headers(
            split_lines(s),
        ).contains_key("content-encoding"@),
    ensures
        parse_spec(s) is Err,
{
}

/// A key already in the accumulator survives the rest of the fold.
proof fn lemma_headers_from_preserves(
    lines: Seq<Seq<char>>,
    i: int,
    stop: int,
    acc: Map<Seq<char>, Seq<char>>,
    k: Seq<char>,
)
    requires
        acc.contains_key(k),
    ensures
        headers_from(lines, i, stop, acc).contains_key(k),
    decreases stop - i,
{
    if i < stop {
        let acc2 = match header_split(lines[i]) {
            None => acc,
            Some(kv) => acc.insert(kv.0, kv.1),
        };
        lemma_headers_from_preserves(lines, i + 1, stop, acc2, k);
    }
}

/// Every name that some header line in range yields is in the fold's result.
proof fn lemma_headers_from_contains(
    lines: Seq<Seq<char>>,
    i: int,
    stop: int,
    acc: Map<Seq<char>, Seq<char>>,
    j: int,
)
    requires
        i <= j < stop,
        header_split(lines[j]) is Some,
    ensures
        headers_from(lines, i, stop, acc).contains_key((header_split(lines[j])->0).0),
    decreases stop - i,
{
    let acc2 = match header_split(lines[i]) {
        None => acc,
        Some(kv) => acc.insert(kv.0, kv.1),
    };
    if i < j {
        lemma_headers_from_contains(lines, i + 1, stop, acc2, j);
    } else {
        lemma_headers_from_preserves(lines, i + 1, stop, acc2, (header_split(lines[j])->0).0);
    }
}

/// A response with a header line whose name lowercases to
/// `transfer-encoding` or `content-encoding` — whatever case the peer chose —
/// is never parsed successfully.
pub proof fn lemma_encoding_header_rejected(s: Seq<char>, j: int)
    requires
        ({
            let lines = split_lines(s);
            &&& 1 <= j < first_empty(lines, 1)
            &&& match header_split(lines[j]) {
                Some(kv) => kv.0 == "transfer-encoding"@ || kv.0 == "content-encoding"@,
                None => false,
            }
        }),
    ensures
        parse_spec(s) is Err,
{
    let lines = split_lines(s);
    lemma_headers_from_contains(lines, 1, first_empty(lines, 1), Map::empty(), j);
    lemma_rejects_encodings(s);
}

/// `find_sep` returns exactly the first separator position.
proof fn lemma_find_sep_val(l: Seq<char>, i: int, p: int)
    requires
        0 <= i <= p,
        p + 2 <= l.len(),
        l[p] == ':',
        l[p + 1] == ' ',
        forall|k: int| i <= k < p ==> l[k] != ':',
    ensures
        find_sep(l, i) == Some(p),
    decreases p - i,
{
    if i < p {
        lemma_find_sep_val(l, i + 1, p);
    }
}

/// `first_empty` returns exactly the first empty line's index.
proof fn lemma_first_empty_val(lines: Seq<Seq<char>>, i: int, j: int)
    requires
        0 <= i <= j < lines.len(),
        lines[j].len() == 0,
        forall|k: int| i <= k < j ==> (#[trigger] lines[k]).len() != 0,
    ensures
        first_empty(lines, i) == j,
    decreases j - i,
{
    if i < j {
        lemma_first_empty_val(lines, i + 1, j);
    }
}

/// The mapping read off an association list, later entries overriding
/// earlier ones.
pub open spec fn assoc_map(entries: Seq<(Seq<char>, Seq<char>)>) -> Map<Seq<char>, Seq<char>>
    decreases entries.len(),
{
    if entries.len() == 0 {
        Map::<Seq<char>, Seq<char>>::empty()
    } else {
        assoc_map(entries.drop_last()).insert(entries.last().0, entries.last().1)
    }
}

/// No two entries of the association list share a key.
pub open spec fn unique_keys(entries: Seq<(Seq<char>, Seq<char>)>) -> bool {
    forall|i: int, j: int|
        0 <= i < j < entries.len() ==> (#[trigger] entries[i]).0 != (#[trigger] entries[j]).0
}

/// Appending an entry inserts its pair into the mapping.
pub proof fn lemma_assoc_push(entries: Seq<(Seq<char>, Seq<char>)>, k: Seq<char>, v: Seq<char>)
    ensures
        assoc_map(entries.push((k, v))) == assoc_map(entries).insert(k, v),
{
    assert(entries.push((k, v)).drop_last() =~= entries);
}

/// Overwriting the entry that holds a key inserts the new pair.
pub proof fn lemma_assoc_update(entries: Seq<(Seq<char>, Seq<char>)>, j: int, v: Seq<char>)
    requires
        unique_keys(entries),
        0 <= j < entries.len(),
    ensures
        assoc_map(entries.update(j, (entries[j].0, v))) == assoc_map(entries).insert(
            entries[j].0,
            v,
        ),
    decreases entries.len(),
{
    let k = entries[j].0;
    let e2 = entries.update(j, (k, v));
    if j == entries.len() - 1 {
        assert(e2.drop_last() =~= entries.drop_last());
        assert(assoc_map(entries).insert(k, v) =~= assoc_map(entries.drop_last()).insert(k, v));
    } else {
        let dl = entries.drop_last();
        assert(forall|i: int, j2: int|
            0 <= i < j2 < dl.len() ==> (#[trigger] dl[i]).0 != (#[trigger] dl[j2]).0);
        lemma_assoc_update(dl, j, v);
        assert(e2.drop_last() =~= dl.update(j, (k, v)));
        assert(e2.last() == entries.last());
        assert(entries.last().0 != k);
        assert(assoc_map(dl).insert(k, v).insert(entries.last().0, entries.last().1) =~= assoc_map(
            dl,
        ).insert(entries.last().0, entries.last().1).insert(k, v));
    }
}

/// A held key maps to the value of its (unique) entry.
pub proof fn lemma_assoc_found(entries: Seq<(Seq<char>, Seq<char>)>, j: int)
    requires
        unique_keys(entries),
        0 <= j < entries.len(),
    ensures
        assoc_map(entries).contains_key(entries[j].0),
        assoc_map(entries)[entries[j].0] == entries[j].1,
    decreases entries.len(),
{
    if j < entries.len() - 1 {
        let dl = entries.drop_last();
        assert(forall|i: int, j2: int|
            0 <= i < j2 < dl.len() ==> (#[trigger] dl[i]).0 != (#[trigger] dl[j2]).0);
        lemma_assoc_found(dl, j);
        assert(entries.last().0 != entries[j].0);
    }
}

/// A key no entry holds is absent from the mapping.
pub proof fn lemma_assoc_absent(entries: Seq<(Seq<char>, Seq<char>)>, k: Seq<char>)
    requires
        forall|i: int| 0 <= i < entries.len() ==> (#[trigger] entries[i]).0 != k,
    ensures
        !assoc_map(entries).contains_key(k),
    decreases entries.len(),
{
    if entries.len() > 0 {
        lemma_assoc_absent(entries.drop_last(), k);
    }
}

/// The header block of a wire-format response: each entry written as
/// `name: value` and ended by CRLF.
pub open spec fn header_lines_text(hdrs: Seq<(Seq<char>, Seq<char>)>, i: int) -> Seq<char>
    decreases hdrs.len() - i,
{
    if i >= hdrs.len() {
        Seq::<char>::empty()
    } else {
        hdrs[i].0 + ": "@ + hdrs[i].1 + "\r\n"@ + header_lines_text(hdrs, i + 1)
    }
}

/// The header block's lines, as the line splitter will see them.
pub open spec fn hdr_line_seq(hdrs: Seq<(Seq<char>, Seq<char>)>, i: int) -> Seq<Seq<char>>
    decreases hdrs.len() - i,
{
    if i >= hdrs.len() {
        Seq::<Seq<char>>::empty()
    } else {
        seq![hdrs[i].0 + ": "@ + hdrs[i].1] + hdr_line_seq(hdrs, i + 1)
    }
}

/// A well-formed response on the wire: status line, header block, blank
/// line, body.
pub open spec fn response_wire(
    code: u16,
    explanation: Seq<char>,
    hdrs: Seq<(Seq<char>, Seq<char>)>,
    body: Seq<char>,
) -> Seq<char> {
    "HTTP/1.1 "@ + dec_str(code as int) + " "@ + explanation + "\r\n"@ + header_lines_text(hdrs, 0)
        + "\r\n"@ + body
}

/// A header name a peer can echo back unchanged: non-empty, already
/// lowercase, and free of the colon and line-break characters that carry
/// wire structure.
pub open spec fn wf_header_name(name: Seq<char>) -> bool {
    name.len() > 0 && forall|k: int|
        0 <= k < name.len() ==> #[trigger] name[k] != ':' && name[k] != '\r' && name[k] != '\n'
            && lower_seq(name)[k] == name[k]
}

/// A header value that survives the wire: free of line breaks.
pub open spec fn wf_header_value(v: Seq<char>) -> bool {
    forall|k: int| 0 <= k < v.len() ==> #[trigger] v[k] != '\r' && v[k] != '\n'
}

/// Splitting the header block and what follows yields one line per header,
/// then the blank line, then the body's lines.
proof fn lemma_header_block_lines(hdrs: Seq<(Seq<char>, Seq<char>)>, i: int, body: Seq<char>)
    requires
        0 <= i <= hdrs.len(),
        forall|j: int|
            0 <= j < hdrs.len() ==> wf_header_name((#[trigger] hdrs[j]).0) && wf_header_value(
                hdrs[j].1,
            ),
    ensures
        split_lines(header_lines_text(hdrs, i) + "\r\n"@ + body) == hdr_line_seq(hdrs, i) + seq![
            Seq::<char>::empty(),
        ] + split_lines(body),
    decreases hdrs.len() - i,
{
    reveal_strlit("\r\n");
    reveal_strlit(": ");
    if i >= hdrs.len() {
        assert(header_lines_text(hdrs, i) + "\r\n"@ + body =~= Seq::<char>::empty() + "\r\n"@
            + body);
        crate::text::lemma_split_lines_step(Seq::<char>::empty(), body);
        assert(hdr_line_seq(hdrs, i) + seq![Seq::<char>::empty()] + split_lines(body) =~= seq![
            Seq::<char>::empty(),
        ] + split_lines(body));
    } else {
        let hline = hdrs[i].0 + ": "@ + hdrs[i].1;
        let rest = header_lines_text(hdrs, i + 1) + "\r\n"@ + body;
        assert(header_lines_text(hdrs, i) + "\r\n"@ + body =~= hline + "\r\n"@ + rest);
        assert forall|k: int| 0 <= k < hline.len() implies hline[k] != '\n' by {
            if k < hdrs[i].0.len() {
                assert(hline[k] == hdrs[i].0[k]);
            } else if k < hdrs[i].0.len() + 2 {
                assert(hline[k] == ": "@[k - hdrs[i].0.len()]);
            } else {
                assert(hline[k] == hdrs[i].1[k - hdrs[i].0.len() - 2]);
            }
        }
        crate::text::lemma_split_lines_step(hline, rest);
        lemma_header_block_lines(hdrs, i + 1, body);
        assert(seq![hline] + (hdr_line_seq(hdrs, i + 1) + seq![Seq::<char>::empty()] + split_lines(
            body,
        )) =~= hdr_line_seq(hdrs, i) + seq![Seq::<char>::empty()] + split_lines(body));
    }
}

/// Folding the parsed header lines from position `k` onward, starting from
/// the mapping of the first `k` entries, reaches the mapping of all entries.
proof fn lemma_headers_fold(
    lines: Seq<Seq<char>>,
    hdrs: Seq<(Seq<char>, Seq<char>)>,
    stop: int,
    k: int,
)
    requires
        0 <= k <= hdrs.len(),
        stop == 1 + hdrs.len(),
        stop <= lines.len(),
        forall|j: int| 0 <= j < hdrs.len() ==> header_split(#[trigger] lines[1 + j]) == Some(
            hdrs[j],
        ),
    ensures
        headers_from(lines, 1 + k, stop, assoc_map(hdrs.take(k))) == assoc_map(hdrs),
    decreases hdrs.len() - k,
{
    if k == hdrs.len() {
        assert(hdrs.take(k) =~= hdrs);
    } else {
        lemma_assoc_push(hdrs.take(k), hdrs[k].0, hdrs[k].1);
        assert(hdrs.take(k).push((hdrs[k].0, hdrs[k].1)) =~= hdrs.take(k + 1));
        lemma_headers_fold(lines, hdrs, stop, k + 1);
    }
}

/// The round trip: a well-formed response whose status line carries this
/// code and reason and whose header block carries these (unique, lowercase,
/// non-encoding) headers parses successfully, and parsing recovers the
/// status code and the headers exactly.
pub proof fn lemma_response_round_trip(
    code: u16,
    explanation: Seq<char>,
    hdrs: Seq<(Seq<char>, Seq<char>)>,
    body: Seq<char>,
)
    requires
        explanation.len() > 0,
        forall|k: int| 0 <= k < explanation.len() ==> !is_space(#[trigger] explanation[k]),
        forall|j: int|
            0 <= j < hdrs.len() ==> wf_header_name((#[trigger] hdrs[j]).0) && wf_header_value(
                hdrs[j].1,
            ),
        forall|j: int|
            0 <= j < hdrs.len() ==> (#[trigger] hdrs[j]).0 != "transfer-encoding"@ && hdrs[j].0
                != "content-encoding"@,
        unique_keys(hdrs),
    ensures
        ({
            let m = parse_spec(response_wire(code, explanation, hdrs, body));
            &&& m is Ok
            &&& m->Ok_0.version == "HTTP/1.1"@
            &&& m->Ok_0.status_code == code
            &&& m->Ok_0.explanation == explanation
            &&& m->Ok_0.headers == assoc_map(hdrs)
        }),
{
    reveal_strlit("HTTP/1.1 ");
    reveal_strlit("HTTP/1.1");
    reveal_strlit(" ");
    reveal_strlit("\r\n");
    reveal_strlit(": ");
    reveal_strlit("transfer-encoding");
    reveal_strlit("content-encoding");
    let wire = response_wire(code, explanation, hdrs, body);
    let status = "HTTP/1.1 "@ + dec_str(code as int) + " "@ + explanation;
    let block = header_lines_text(hdrs, 0) + "\r\n"@ + body;
    lemma_dec_str_digits(code as int);
    let dl = dec_str(code as int).len() as int;
    let el = explanation.len() as int;
    // the status line splits off first
    assert(wire =~= status + "\r\n"@ + block);
    assert forall|k: int| 0 <= k < status.len() implies status[k] != '\n' by {
        lemma_status_char(code, explanation, k);
    }
    crate::text::lemma_split_lines_step(status, block);
    lemma_header_block_lines(hdrs, 0, body);
    let lines = split_lines(wire);
    assert(lines == seq![status] + (hdr_line_seq(hdrs, 0) + seq![Seq::<char>::empty()]
        + split_lines(body)));
    lemma_hdr_line_seq_len(hdrs, 0);
    assert(lines.len() == 2 + hdrs.len() + split_lines(body).len());
    assert(lines[0] == status);
    // the status line yields its three tokens
    assert(!is_space(status[0]));
    crate::text::lemma_skip_ws_val(status, 0, 0);
    assert forall|k: int| 0 <= k < 8 implies !is_space(status[k]) by {
        lemma_status_char(code, explanation, k);
    }
    assert(is_space(status[8]));
    crate::text::lemma_scan_tok_val(status, 0, 8);
    assert(status.subrange(0, 8) =~= "HTTP/1.1"@);
    assert forall|k: int| 9 <= k < 9 + dl implies !is_space(status[k]) by {
        lemma_status_char(code, explanation, k);
    }
    assert(is_space(status[9 + dl]));
    crate::text::lemma_skip_ws_val(status, 8, 9);
    crate::text::lemma_scan_tok_val(status, 9, 9 + dl);
    assert(status.subrange(9, 9 + dl) =~= dec_str(code as int));
    assert forall|k: int| 10 + dl <= k < status.len() implies !is_space(status[k]) by {
        lemma_status_char(code, explanation, k);
    }
    crate::text::lemma_skip_ws_val(status, 9 + dl, 10 + dl);
    crate::text::lemma_scan_tok_val(status, 10 + dl, status.len() as int);
    assert(status.subrange(10 + dl, status.len() as int) =~= explanation);
    // the blank line closes the header block
    let stop = 1 + hdrs.len() as int;
    assert forall|j: int| 0 <= j < hdrs.len() implies (#[trigger] lines[1 + j]) == hdr_line_seq(
        hdrs,
        0,
    )[j] by {
        lemma_hdr_line_seq_index(hdrs, 0, j);
    }
    assert forall|k: int| 1 <= k < stop implies (#[trigger] lines[k]).len() != 0 by {
        lemma_hdr_line_seq_index(hdrs, 0, k - 1);
        assert(lines[k].len() == hdrs[k - 1].0.len() + 2 + hdrs[k - 1].1.len());
    }
    assert(lines[stop].len() == 0);
    lemma_first_empty_val(lines, 1, stop);
    // each header line splits at its separator
    assert forall|j: int| 0 <= j < hdrs.len() implies header_split(#[trigger] lines[1 + j])
        == Some(hdrs[j]) by {
        lemma_hdr_line_seq_index(hdrs, 0, j);
        let hline = hdrs[j].0 + ": "@ + hdrs[j].1;
        let nl = hdrs[j].0.len() as int;
        assert(hline[nl] == ':');
        assert(hline[nl + 1] == ' ');
        assert forall|k: int| 0 <= k < nl implies hline[k] != ':' by {
            assert(hline[k] == hdrs[j].0[k]);
        }
        lemma_find_sep_val(hline, 0, nl);
        assert(hline.take(nl) =~= hdrs[j].0);
        assert(lower_seq(hdrs[j].0) =~= hdrs[j].0);
        assert(hline.subrange(nl + 2, hline.len() as int) =~= hdrs[j].1);
    }
    assert(assoc_map(hdrs.take(0)) =~= Map::<Seq<char>, Seq<char>>::empty());
    lemma_headers_fold(lines, hdrs, stop, 0);
    assert(spec_headers(lines) == assoc_map(hdrs));
    // neither banned encoding is among the keys
    lemma_assoc_absent(hdrs, "transfer-encoding"@);
    lemma_assoc_absent(hdrs, "content-encoding"@);
}

/// No character of the wire-format status line is whitespace, except the two
/// separating spaces.
proof fn lemma_status_char(code: u16, explanation: Seq<char>, k: int)
    requires
        explanation.len() > 0,
        forall|i: int| 0 <= i < explanation.len() ==> !is_space(#[trigger] explanation[i]),
    ensures
        ({
            let status = "HTTP/1.1 "@ + dec_str(code as int) + " "@ + explanation;
            let dl = dec_str(code as int).len() as int;
            &&& 0 <= k < 8 ==> !is_space(status[k]) && status[k] != '\n'
            &&& k == 8 ==> status[k] == ' '
            &&& 9 <= k < 9 + dl ==> !is_space(status[k]) && status[k] != '\n'
            &&& k == 9 + dl ==> status[k] == ' '
            &&& 10 + dl <= k < status.len() ==> !is_space(status[k]) && status[k] != '\n'
        }),
{
    reveal_strlit("HTTP/1.1 ");
    reveal_strlit(" ");
    lemma_dec_str_digits(code as int);
    let status = "HTTP/1.1 "@ + dec_str(code as int) + " "@ + explanation;
    let dl = dec_str(code as int).len() as int;
    if 0 <= k < 9 {
        assert(status[k] == "HTTP/1.1 "@[k]);
    } else if 9 <= k < 9 + dl {
        assert(status[k] == dec_str(code as int)[k - 9]);
        assert(crate::text::is_digit(status[k]));
    } else if k == 9 + dl {
        assert(status[k] == " "@[0]);
    } else if 10 + dl <= k < status.len() {
        assert(status[k] == explanation[k - 10 - dl]);
    }
}

/// Indexing into the header block's line list.
proof fn lemma_hdr_line_seq_index(hdrs: Seq<(Seq<char>, Seq<char>)>, i: int, j: int)
    requires
        0 <= i,
        i <= i + j < hdrs.len(),
        0 <= j,
    ensures
        hdr_line_seq(hdrs, i).len() == hdrs.len() - i,
        hdr_line_seq(hdrs, i)[j] == hdrs[i + j].0 + ": "@ + hdrs[i + j].1,
    decreases hdrs.len() - i,
{
    lemma_hdr_line_seq_len(hdrs, i);
    if j > 0 {
        lemma_hdr_line_seq_index(hdrs, i + 1, j - 1);
    }
}

/// The header block has one line per entry.
proof fn lemma_hdr_line_seq_len(hdrs: Seq<(Seq<char>, Seq<char>)>, i: int)
    requires
        0 <= i <= hdrs.len(),
    ensures
        hdr_line_seq(hdrs, i).len() == hdrs.len() - i,
    decreases hdrs.len() - i,
{
    if i < hdrs.len() {
        lemma_hdr_line_seq_len(hdrs, i + 1);
    }
}

/// Finds the position of the first `": "` separator in a header line.
fn find_sep_x(l: &Vec<char>) -> (r: Option<usize>)
    ensures
        match r {
            Some(p) => p + 2 <= l@.len() && find_sep(l@, 0) == Some(p as int),
            None => find_sep(l@, 0) is None,
        },
{
    let n = l.len();
    if n < 2 {
        return None;
    }
    let mut i: usize = 0;
    while i <= n - 2
        invariant
            2 <= n == l@.len(),
            i <= n - 1,
            find_sep(l@, 0) == find_sep(l@, i as int),
        decreases n - i,
    {
        if l[i] == ':' && l[i + 1] == ' ' {
            return Some(i);
        }
        i += 1;
    }
    None
}

/// The index of the first empty line after the status line.
fn first_empty_x(lines: &Vec<Vec<char>>) -> (r: usize)
    ensures
        r <= lines@.len(),
        r as int == first_empty(lines.deep_view(), 1),
{
    let n = lines.len();
    let mut i: usize = 1;
    while i < n
        invariant
            1 <= i,
            i <= n + 1,
            n == lines@.len(),
            first_empty(lines.deep_view(), 1) == first_empty(lines.deep_view(), i as int),
        decreases n - i,
    {
        proof {
            assert(lines.deep_view()[i as int] =~= lines@[i as int]@);
        }
        if lines[i].len() == 0 {
            return i;
        }
        i += 1;
    }
    n
}

/// Scans an association list for a key.
fn assoc_find(headers: &Vec<(String, String)>, key: &String) -> (r: Option<usize>)
    ensures
        match r {
            Some(j) => j < headers@.len() && headers.deep_view()[j as int].0 == key@,
            None => forall|k: int|
                0 <= k < headers@.len() ==> (#[trigger] headers.deep_view()[k]).0 != key@,
        },
{
    let n = headers.len();
    let mut j: usize = 0;
    while j < n
        invariant
            j <= n,
            n == headers@.len(),
            forall|k: int| 0 <= k < j ==> (#[trigger] headers.deep_view()[k]).0 != key@,
        decreases n - j,
    {
        let ent = &headers[j];
        if ent.0 == *key {
            return Some(j);
        }
        j += 1;
    }
    None
}

/// A parsed response: status line fields, the header mapping as an
/// association list with unique lowercased keys, and the reconstructed body.
pub struct Response {
    pub version: String,
    pub status_code: u16,
    pub explanation: String,
    pub headers: Vec<(String, String)>,
    pub body: String,
}

impl Response {
    /// The header mapping this response holds.
    pub open spec fn headers_map(self) -> Map<Seq<char>, Seq<char>> {
        assoc_map(self.headers.deep_view())
    }

    /// Internal consistency: header keys are unique.
    pub open spec fn wf(self) -> bool {
        unique_keys(self.headers.deep_view())
    }

    /// The mathematical shape of this response.
    pub open spec fn model(self) -> ResponseModel {
        ResponseModel {
            version: self.version@,
            status_code: self.status_code,
            explanation: self.explanation@,
            headers: self.headers_map(),
            body: self.body@,
        }
    }

    /// The value stored under a header name, if any. Names are stored
    /// lowercased, so lookups are by the lowercased name.
    pub fn header(&self, name: &str) -> (r: Option<&String>)
        requires
            self.wf(),
        ensures
            match r {
                Some(v) => self.headers_map().contains_key(name@) && v@ == self.headers_map().index(
                    name@,
                ),
                None => !self.headers_map().contains_key(name@),
            },
    {
        let n = self.headers.len();
        let mut j: usize = 0;
        while j < n
            invariant
                j <= n,
                n == self.headers@.len(),
                self.wf(),
                forall|k: int|
                    0 <= k < j ==> (#[trigger] self.headers.deep_view()[k]).0 != name@,
            decreases n - j,
        {
            let ent = &self.headers[j];
            if str_eq_x(ent.0.as_str(), name) {
                proof {
                    lemma_assoc_found(self.headers.deep_view(), j as int);
                }
                return Some(&self.headers[j].1);
            }
            j += 1;
        }
        proof {
            lemma_assoc_absent(self.headers.deep_view(), name@);
        }
        None
    }

    /// Parses a raw response text. Succeeds exactly when the status line
    /// carries a version, a decimal 16-bit status code and a reason token and
    /// no transfer or content encoding is declared; the reported error names
    /// the first requirement the response misses.
    pub fn parse(text: &str) -> (r: Result<Response, FetchError>)
        ensures
            match r {
                Ok(resp) => parse_spec(text@) is Ok && resp.model() == parse_spec(text@)->Ok_0
                    && resp.wf(),
                Err(e) => parse_spec(text@) is Err && e == parse_spec(text@)->Err_0,
            },
    {
        let v = to_char_vec(text);
        let lines = split_lines_x(&v);
        let ghost ldv = lines.deep_view();
        let nl = lines.len();
        if nl == 0 {
            return Err(FetchError::Protocol(ProtocolError::MissingStatus));
        }
        let l0 = &lines[0];
        proof {
            assert(l0@ =~= ldv[0]);
        }
        let ll = l0.len();
        let a = skip_ws_x(l0, 0);
        if a == ll {
            return Err(FetchError::Protocol(ProtocolError::MissingVersion));
        }
        let b = scan_tok_x(l0, a);
        let c = skip_ws_x(l0, b);
        if c == ll {
            return Err(FetchError::Protocol(ProtocolError::MissingStatusCode));
        }
        let d = scan_tok_x(l0, c);
        let code: u16 = match parse_dec_bounded(l0, c, d, 65535) {
            None => {
                return Err(FetchError::Protocol(ProtocolError::InvalidStatusCode));
            },
            Some(x) => x as u16,
        };
        let e = skip_ws_x(l0, d);
        if e == ll {
            return Err(FetchError::Protocol(ProtocolError::MissingExplanation));
        }
        let f = scan_tok_x(l0, e);
        let version = string_of_range(l0, a, b);
        let explanation = string_of_range(l0, e, f);
        let stop = first_empty_x(&lines);
        let ghost hstop = first_empty(ldv, 1);
        proof {
            lemma_first_empty_props(ldv, 1);
        }
        let ghost goal = headers_from(ldv, 1, hstop, Map::<Seq<char>, Seq<char>>::empty());
        let mut headers: Vec<(String, String)> = Vec::new();
        let mut saw_te = false;
        let mut saw_ce = false;
        let mut i: usize = 1;
        proof {
            assert(headers.deep_view() =~= Seq::<(Seq<char>, Seq<char>)>::empty());
        }
        while i < stop
            invariant
                1 <= i <= stop,
                stop as int == hstop,
                hstop <= ldv.len(),
                ldv == lines.deep_view(),
                ldv.len() == lines@.len(),
                goal == headers_from(ldv, 1, hstop, Map::<Seq<char>, Seq<char>>::empty()),
                unique_keys(headers.deep_view()),
                headers_from(ldv, i as int, hstop, assoc_map(headers.deep_view())) == goal,
                saw_te == assoc_map(headers.deep_view()).contains_key("transfer-encoding"@),
                saw_ce == assoc_map(headers.deep_view()).contains_key("content-encoding"@),
            decreases stop - i,
        {
            let l = &lines[i];
            proof {
                assert(l@ =~= ldv[i as int]);
            }
            match find_sep_x(l) {
                None => {},
                Some(p) => {
                    let le = l.len();
                    let key = lower_string_of_range(l, 0, p);
                    proof {
                        assert(l@.subrange(0, p as int) =~= l@.take(p as int));
                    }
                    let value = string_of_range(l, p + 2, le);
                    if str_eq_x(key.as_str(), "transfer-encoding") {
                        saw_te = true;
                    }
                    if str_eq_x(key.as_str(), "content-encoding") {
                        saw_ce = true;
                    }
                    let ghost prev = headers.deep_view();
                    match assoc_find(&headers, &key) {
                        Some(j) => {
                            headers.remove(j);
                            headers.insert(j, (key, value));
                            proof {
                                assert(headers.deep_view() =~~= prev.update(
                                    j as int,
                                    (prev[j as int].0, value@),
                                ));
                                lemma_assoc_update(prev, j as int, value@);
                            }
                        },
                        None => {
                            headers.push((key, value));
                            proof {
                                assert(headers.deep_view() =~~= prev.push((key@, value@)));
                                lemma_assoc_push(prev, key@, value@);
                            }
                        },
                    }
                },
            }
            i += 1;
        }
        if saw_te {
            return Err(FetchError::Protocol(ProtocolError::UnsupportedTransferEncoding));
        }
        if saw_ce {
            return Err(FetchError::Protocol(ProtocolError::UnsupportedContentEncoding));
        }
        let mut body = String::new();
        if stop < nl {
            let mut k = stop + 1;
            if k < nl {
                let lk = &lines[k];
                proof {
                    assert(lk@ =~= ldv[k as int]);
                }
                push_range(&mut body, lk, 0, lk.len());
                proof {
                    assert(body@ =~= ldv[k as int]);
                }
                k += 1;
                while k < nl
                    invariant
                        stop + 1 < k <= nl,
                        nl == lines@.len(),
                        ldv == lines.deep_view(),
                        ldv.len() == nl,
                        hstop == stop as int,
                        join_crlf(ldv, hstop + 1) == body@ + tail_crlf(ldv, k as int),
                    decreases nl - k,
                {
                    let ghost prev = body@;
                    body.append("\r\n");
                    let lk = &lines[k];
                    proof {
                        assert(lk@ =~= ldv[k as int]);
                    }
                    push_range(&mut body, lk, 0, lk.len());
                    k += 1;
                    proof {
                        assert(body@ + tail_crlf(ldv, k as int) =~= prev + ("\r\n"@ + ldv[k - 1]
                            + tail_crlf(ldv, k as int)));
                    }
                }
            }
        }
        proof {
            assert(body@ =~= join_crlf(ldv, hstop + 1));
        }
        let resp = Response { version, status_code: code, explanation, headers, body };
        proof {
            assert(resp.model() =~= parse_spec(text@)->Ok_0);
        }
        Ok(resp)
    }

    /// The body as printable text, with everything between tag delimiters
    /// stripped.
    pub fn render_body(&self) -> (r: String)
        ensures
            r@ == crate::render::render_spec(self.body@, false),
    {
        crate::render::render(self.body.as_str())
    }
}

} // verus!
