//! The laws of the request format: a buffer assembled from well-formed
//! components parses back to exactly those components, and re-parsing the
//! canonical text of a parsed request yields the same request.

use vstd::prelude::*;

use crate::http::{
    blank_line, body_of, crlf, has_separator, head_lines_of, head_of, header_line_ok,
    header_lines_of, header_sep, request_line_of, sep_pos, spec_header_pair, spec_parse_headers,
    spec_parse_info, spec_parse_request, spec_parse_version, InfoModel, ParseError, ReqModel,
};
use crate::text::{
    digit_char, digit_val, is_ws, next_non_ws, next_ws, occurs_at, spec_find, spec_split,
    take_until_empty, lemma_digit_round_trip, lemma_find_at_first, lemma_find_props,
    lemma_next_non_ws_props, lemma_next_non_ws_value, lemma_next_ws_props, lemma_next_ws_value,
};

verus! {

/// A line that contains no line separator.
pub open spec fn no_crlf(l: Seq<char>) -> bool {
    forall|i: int| !occurs_at(l, crlf(), i)
}

/// Lines joined by the line separator.
pub open spec fn join_crlf(lines: Seq<Seq<char>>) -> Seq<char>
    decreases lines.len(),
{
    if lines.len() == 0 {
        Seq::empty()
    } else if lines.len() == 1 {
        lines[0]
    } else {
        lines[0] + crlf() + join_crlf(lines.drop_first())
    }
}

/// In `a + crlf + b` with `a` free of line separators, the first separator
/// stands exactly at the end of `a`.
proof fn lemma_first_sep_at_boundary(a: Seq<char>, b: Seq<char>)
    requires
        no_crlf(a),
    ensures
        spec_find(a + crlf() + b, crlf(), 0) == Some(a.len() as int),
{
    let s = a + crlf() + b;
    let h = a.len() as int;
    assert(s.subrange(h, h + 2) =~= crlf());
    assert(occurs_at(s, crlf(), h));
    assert forall|j: int| 0 <= j < h implies !occurs_at(s, crlf(), j) by {
        if occurs_at(s, crlf(), j) {
            if j + 2 <= h {
                assert(a.subrange(j, j + 2) =~= s.subrange(j, j + 2));
                assert(occurs_at(a, crlf(), j));
            } else {
                // j == h - 1: the character after it is the '\r' of the
                // separator, not '\n'.
                assert(s.subrange(j, j + 2)[1] == s[h]);
                assert(s[h] == '\r');
            }
        }
    }
    lemma_find_at_first(s, crlf(), h);
}

/// Splitting the joined lines gives the lines back, when none of them holds
/// a separator of its own.
proof fn lemma_split_join(lines: Seq<Seq<char>>)
    requires
        lines.len() >= 1,
        forall|i: int| 0 <= i < lines.len() ==> no_crlf(#[trigger] lines[i]),
    ensures
        spec_split(join_crlf(lines), crlf()) == lines,
    decreases lines.len(),
{
    let s = join_crlf(lines);
    if lines.len() == 1 {
        lemma_find_props(s, crlf(), 0);
        if spec_find(s, crlf(), 0) is Some {
            assert(occurs_at(lines[0], crlf(), spec_find(s, crlf(), 0)->Some_0));
        }
        assert(spec_split(s, crlf()) =~= lines);
    } else {
        let a = lines[0];
        let rest = join_crlf(lines.drop_first());
        assert(s == a + crlf() + rest);
        lemma_first_sep_at_boundary(a, rest);
        let h = a.len() as int;
        assert(s.subrange(0, h) =~= a);
        assert(s.subrange(h + 2, s.len() as int) =~= rest);
        lemma_split_join(lines.drop_first());
        assert(spec_split(s, crlf()) =~= lines);
    }
}

/// In the joined lines followed by the blank line and the body, the first
/// blank-line sequence stands exactly at the end of the joined lines, as
/// long as every line is nonempty and free of separators.
proof fn lemma_first_blank_at_boundary(lines: Seq<Seq<char>>, body: Seq<char>)
    requires
        lines.len() >= 1,
        forall|i: int| 0 <= i < lines.len() ==> no_crlf(#[trigger] lines[i]),
        forall|i: int| 0 <= i < lines.len() ==> (#[trigger] lines[i]).len() >= 1,
    ensures
        spec_find(join_crlf(lines) + blank_line() + body, blank_line(), 0) == Some(
            join_crlf(lines).len() as int,
        ),
    decreases lines.len(),
{
    let a = join_crlf(lines);
    let s = a + blank_line() + body;
    let h = a.len() as int;
    assert(s.subrange(h, h + 4) =~= blank_line());
    assert(occurs_at(s, blank_line(), h));
    let l0 = lines[0];
    assert forall|j: int| 0 <= j < h implies !occurs_at(s, blank_line(), j) by {
        if occurs_at(s, blank_line(), j) {
            let w = s.subrange(j, j + 4);
            assert(w[0] == s[j] && w[1] == s[j + 1] && w[2] == s[j + 2] && w[3] == s[j + 3]);
            assert(w == blank_line());
            if lines.len() == 1 {
                // Any match would put a separator inside the single line, or
                // start at its last character, where the next character is
                // the '\r' of the blank line.
                if j + 2 <= h {
                    assert(s.subrange(j, j + 2) =~= crlf());
                    assert(l0.subrange(j, j + 2) =~= s.subrange(j, j + 2));
                    assert(occurs_at(l0, crlf(), j));
                } else {
                    assert(s[j + 1] == blank_line()[0]);
                }
            } else {
                let rest = lines.drop_first();
                let jr = join_crlf(rest);
                let t = jr + blank_line() + body;
                let b = l0.len() as int;
                assert(s =~= l0 + crlf() + t);
                if j + 2 <= b {
                    assert(s.subrange(j, j + 2) =~= crlf());
                    assert(l0.subrange(j, j + 2) =~= s.subrange(j, j + 2));
                    assert(occurs_at(l0, crlf(), j));
                } else if j == b - 1 {
                    assert(s[j + 1] == crlf()[0]);
                } else if j == b {
                    // The match would need the tail to open with a
                    // separator, but the next line is nonempty and holds
                    // none.
                    assert(s[j + 2] == t[0] && s[j + 3] == t[1]);
                    let r0 = rest[0];
                    assert(r0.len() >= 1 && no_crlf(r0));
                    if r0.len() >= 2 {
                        assert(t[0] == r0[0] && t[1] == r0[1]);
                        assert(r0.subrange(0, 2) =~= seq![r0[0], r0[1]]);
                        assert(occurs_at(r0, crlf(), 0));
                    } else {
                        if rest.len() >= 2 {
                            assert(jr =~= r0 + crlf() + join_crlf(rest.drop_first()));
                            assert(t[1] == crlf()[0]);
                        } else {
                            assert(jr == r0);
                            assert(t[1] == blank_line()[0]);
                        }
                    }
                } else if j == b + 1 {
                    assert(s[j] == crlf()[1]);
                } else {
                    // The match lies wholly in the tail, before its own
                    // blank line: impossible by induction.
                    lemma_first_blank_at_boundary(rest, body);
                    lemma_find_props(t, blank_line(), 0);
                    let jt = j - b - 2;
                    assert(t.subrange(jt, jt + 4) =~= s.subrange(j, j + 4));
                    assert(occurs_at(t, blank_line(), jt));
                    assert(jt < jr.len());
                }
            }
        }
    }
    lemma_find_at_first(s, blank_line(), h);
}

/// A line list with no empty line is kept whole.
proof fn lemma_take_until_empty_all(lines: Seq<Seq<char>>)
    requires
        forall|i: int| 0 <= i < lines.len() ==> (#[trigger] lines[i]).len() >= 1,
    ensures
        take_until_empty(lines) == lines,
    decreases lines.len(),
{
    if lines.len() > 0 {
        lemma_take_until_empty_all(lines.drop_first());
        assert(take_until_empty(lines) =~= lines);
    } else {
        assert(take_until_empty(lines) =~= lines);
    }
}

/// The kept prefix of a line list: its lines are the original ones, and all
/// of them are nonempty.
proof fn lemma_take_until_empty_prefix(lines: Seq<Seq<char>>)
    ensures
        take_until_empty(lines).len() <= lines.len(),
        forall|i: int| 0 <= i < take_until_empty(lines).len() ==> take_until_empty(lines)[i]
            == lines[i] && (#[trigger] lines[i]).len() >= 1,
    decreases lines.len(),
{
    if lines.len() > 0 && lines[0].len() > 0 {
        lemma_take_until_empty_prefix(lines.drop_first());
        let kept = take_until_empty(lines);
        assert forall|i: int|
            0 <= i < kept.len() implies kept[i] == lines[i] && (#[trigger] lines[i]).len()
            >= 1 by {
            if i > 0 {
                assert(kept[i] == take_until_empty(lines.drop_first())[i - 1]);
                assert(lines.drop_first()[i - 1] == lines[i]);
            }
        }
    }
}

/// A piece that splitting yields contains no occurrence of the separator it
/// was split on.
proof fn lemma_split_pieces_clean(s: Seq<char>, pat: Seq<char>)
    requires
        pat.len() > 0,
    ensures
        forall|i: int, j: int| 0 <= i < spec_split(s, pat).len() ==> !(#[trigger] occurs_at(
            spec_split(s, pat)[i],
            pat,
            j,
        )),
    decreases s.len(),
{
    lemma_find_props(s, pat, 0);
    match spec_find(s, pat, 0) {
        None => {
            assert forall|j: int| !occurs_at(spec_split(s, pat)[0], pat, j) by {
                if occurs_at(s, pat, j) {
                }
            }
        },
        Some(i) => {
            let piece = s.subrange(0, i);
            assert forall|j: int| !occurs_at(piece, pat, j) by {
                if occurs_at(piece, pat, j) {
                    assert(s.subrange(j, j + pat.len() as int) =~= piece.subrange(
                        j,
                        j + pat.len() as int,
                    ));
                    assert(occurs_at(s, pat, j));
                }
            }
            let rest = s.subrange(i + pat.len() as int, s.len() as int);
            lemma_split_pieces_clean(rest, pat);
            assert forall|k: int, j: int|
                0 <= k < spec_split(s, pat).len() implies !(#[trigger] occurs_at(
                spec_split(s, pat)[k],
                pat,
                j,
            )) by {
                if k > 0 {
                    assert(spec_split(s, pat)[k] == spec_split(rest, pat)[k - 1]);
                }
            }
        },
    }
}

/// A well-formed request-line token: nonempty, with no whitespace in it.
pub open spec fn token_wf(t: Seq<char>) -> bool {
    t.len() > 0 && forall|i: int| 0 <= i < t.len() ==> !is_ws(t[i])
}

/// A well-formed header pair: the name holds no `": "` and no line
/// separator, and the value holds no line separator.
pub open spec fn header_wf(k: Seq<char>, v: Seq<char>) -> bool {
    &&& forall|i: int| !occurs_at(k, header_sep(), i)
    &&& no_crlf(k)
    &&& no_crlf(v)
}

/// The canonical request line for a method, path and minor version.
pub open spec fn request_line_text(method: Seq<char>, path: Seq<char>, version: u32) -> Seq<
    char,
> {
    method + " "@ + path + " "@ + "HTTP/1."@ + seq![digit_char(version as int)]
}

/// The canonical text of one header.
pub open spec fn header_line_text(k: Seq<char>, v: Seq<char>) -> Seq<char> {
    k + ": "@ + v
}

/// The lines of a canonical request head: the request line, then one line
/// per header.
pub open spec fn request_lines_text(
    method: Seq<char>,
    path: Seq<char>,
    version: u32,
    headers: Seq<(Seq<char>, Seq<char>)>,
) -> Seq<Seq<char>> {
    seq![request_line_text(method, path, version)] + headers.map_values(
        |h: (Seq<char>, Seq<char>)| header_line_text(h.0, h.1),
    )
}

/// The canonical text of a whole request.
pub open spec fn request_text(
    method: Seq<char>,
    path: Seq<char>,
    version: u32,
    headers: Seq<(Seq<char>, Seq<char>)>,
    body: Seq<char>,
) -> Seq<char> {
    join_crlf(request_lines_text(method, path, version, headers)) + blank_line() + body
}

/// A canonical request line parses back to its components.
proof fn lemma_parse_request_line(method: Seq<char>, path: Seq<char>, version: u32)
    requires
        token_wf(method),
        token_wf(path),
        version <= 9,
    ensures
        spec_parse_info(request_line_text(method, path, version)) == Ok::<InfoModel, ParseError>(
            InfoModel { method, path, version },
        ),
        no_crlf(request_line_text(method, path, version)),
        request_line_text(method, path, version).len() >= 1,
{
    reveal_strlit(" ");
    reveal_strlit("HTTP/1.");
    lemma_digit_round_trip(version);
    let line = request_line_text(method, path, version);
    let lm = method.len() as int;
    let lp = path.len() as int;
    let vtok = "HTTP/1."@ + seq![digit_char(version as int)];
    let v0 = lm + 1 + lp + 1;
    assert forall|k: int| 0 <= k < line.len() implies !is_ws(line[k]) || k == lm || k == lm + 1
        + lp by {
        if v0 <= k < line.len() {
            assert(line[k] == vtok[k - v0]);
        }
    }
    assert(is_ws(line[lm]) && is_ws(line[lm + 1 + lp]));
    lemma_next_non_ws_value(line, 0, 0);
    lemma_next_ws_value(line, 0, lm);
    lemma_next_non_ws_value(line, lm, lm + 1);
    lemma_next_ws_value(line, lm + 1, lm + 1 + lp);
    lemma_next_non_ws_value(line, lm + 1 + lp, v0);
    lemma_next_ws_value(line, v0, line.len() as int);
    assert(line.subrange(0, lm) =~= method);
    assert(line.subrange(lm + 1, lm + 1 + lp) =~= path);
    assert(line.subrange(v0, line.len() as int) =~= vtok);
    assert(vtok.last() == digit_char(version as int));
    assert(spec_parse_version(vtok) == Ok::<u32, ParseError>(version));
    assert forall|i: int| !occurs_at(line, crlf(), i) by {
        if occurs_at(line, crlf(), i) {
            assert(line.subrange(i, i + 2)[0] == line[i]);
            assert(line[i] == '\r');
            assert(is_ws(line[i]));
            if v0 <= i < line.len() {
                assert(line[i] == vtok[i - v0]);
            }
        }
    }
}

/// A canonical header line parses back to its pair, and is a clean nonempty
/// line.
proof fn lemma_parse_header_line(k: Seq<char>, v: Seq<char>)
    requires
        header_wf(k, v),
    ensures
        header_line_ok(header_line_text(k, v)),
        spec_header_pair(header_line_text(k, v)) == (k, v),
        no_crlf(header_line_text(k, v)),
        header_line_text(k, v).len() >= 1,
{
    reveal_strlit(": ");
    let line = header_line_text(k, v);
    let lk = k.len() as int;
    assert(line.subrange(lk, lk + 2) =~= header_sep());
    assert(occurs_at(line, header_sep(), lk));
    assert forall|j: int| 0 <= j < lk implies !occurs_at(line, header_sep(), j) by {
        if occurs_at(line, header_sep(), j) {
            if j + 2 <= lk {
                assert(k.subrange(j, j + 2) =~= line.subrange(j, j + 2));
                assert(occurs_at(k, header_sep(), j));
            } else {
                // j == lk - 1: the next character is the ':' of the real
                // separator, not the ' ' the pattern needs.
                assert(line.subrange(j, j + 2)[1] == line[lk]);
                assert(line[lk] == ':');
            }
        }
    }
    lemma_find_at_first(line, header_sep(), lk);
    assert(line.subrange(0, lk) =~= k);
    assert(line.subrange(lk + 2, line.len() as int) =~= v);
    assert forall|j: int| !occurs_at(line, crlf(), j) by {
        if occurs_at(line, crlf(), j) {
            let w = line.subrange(j, j + 2);
            assert(w[0] == line[j] && w[1] == line[j + 1]);
            if j + 2 <= lk {
                assert(k.subrange(j, j + 2) =~= line.subrange(j, j + 2));
                assert(occurs_at(k, crlf(), j));
            } else if j == lk - 1 {
                assert(line[j + 1] == ':');
            } else if j == lk {
                assert(line[j] == ':');
            } else if j == lk + 1 {
                assert(line[j] == ' ');
            } else {
                assert(v.subrange(j - lk - 2, j - lk) =~= line.subrange(j, j + 2));
                assert(occurs_at(v, crlf(), j - lk - 2));
            }
        }
    }
}

/// Parsing recovers an assembled request exactly: a buffer built from a
/// well-formed method, path, minor version, header pairs and body parses
/// back to precisely those components.
pub proof fn lemma_parse_request_text(
    method: Seq<char>,
    path: Seq<char>,
    version: u32,
    headers: Seq<(Seq<char>, Seq<char>)>,
    body: Seq<char>,
)
    requires
        token_wf(method),
        token_wf(path),
        version <= 9,
        forall|i: int| 0 <= i < headers.len() ==> header_wf(
            (#[trigger] headers[i]).0,
            headers[i].1,
        ),
    ensures
        spec_parse_request(request_text(method, path, version, headers, body)) == Ok::<
            ReqModel,
            ParseError,
        >(ReqModel { method, path, version, headers, body }),
{
    let rline = request_line_text(method, path, version);
    let lines = request_lines_text(method, path, version, headers);
    let t = request_text(method, path, version, headers, body);
    let joined = join_crlf(lines);
    lemma_parse_request_line(method, path, version);
    assert forall|i: int| 0 <= i < lines.len() implies no_crlf(#[trigger] lines[i]) && lines[i].len()
        >= 1 by {
        if i > 0 {
            assert(lines[i] == header_line_text(headers[i - 1].0, headers[i - 1].1));
            lemma_parse_header_line(headers[i - 1].0, headers[i - 1].1);
        }
    }
    lemma_first_blank_at_boundary(lines, body);
    assert(has_separator(t) && sep_pos(t) == joined.len());
    assert(head_of(t) =~= joined);
    assert(body_of(t) =~= body);
    lemma_split_join(lines);
    assert(head_lines_of(t) == lines);
    assert(request_line_of(t) == rline);
    let hlines = lines.drop_first();
    lemma_take_until_empty_all(hlines);
    assert(header_lines_of(t) == hlines);
    assert forall|i: int| 0 <= i < hlines.len() implies header_line_ok(#[trigger] hlines[i]) by {
        assert(hlines[i] == header_line_text(headers[i].0, headers[i].1));
        lemma_parse_header_line(headers[i].0, headers[i].1);
    }
    let pairs = Seq::new(hlines.len(), |i: int| spec_header_pair(hlines[i]));
    assert forall|i: int| 0 <= i < pairs.len() implies pairs[i] == #[trigger] headers[i] by {
        assert(hlines[i] == header_line_text(headers[i].0, headers[i].1));
        lemma_parse_header_line(headers[i].0, headers[i].1);
        assert(spec_header_pair(hlines[i]) == (headers[i].0, headers[i].1));
    }
    assert(pairs =~= headers);
    assert(spec_parse_headers(hlines) == Ok::<Seq<(Seq<char>, Seq<char>)>, ParseError>(headers));
}

/// Parsing is idempotent: the canonical text of a parsed request parses
/// back to the same structured values, and the body is preserved exactly.
pub proof fn lemma_parse_round_trip(t: Seq<char>, m: ReqModel)
    requires
        spec_parse_request(t) == Ok::<ReqModel, ParseError>(m),
    ensures
        spec_parse_request(request_text(m.method, m.path, m.version, m.headers, m.body)) == Ok::<
            ReqModel,
            ParseError,
        >(m),
{
    let line = request_line_of(t);
    let hlines = header_lines_of(t);
    // The parsed method and path are maximal whitespace-free token runs.
    lemma_next_non_ws_props(line, 0);
    let m0 = next_non_ws(line, 0);
    lemma_next_ws_props(line, m0);
    let m1 = next_ws(line, m0);
    lemma_next_non_ws_props(line, m1);
    let p0 = next_non_ws(line, m1);
    lemma_next_ws_props(line, p0);
    let p1 = next_ws(line, p0);
    lemma_next_non_ws_props(line, p1);
    let v0 = next_non_ws(line, p1);
    lemma_next_ws_props(line, v0);
    let v1 = next_ws(line, v0);
    assert(token_wf(m.method));
    assert(token_wf(m.path));
    let vtok = line.subrange(v0, v1);
    assert(digit_val(vtok.last()) == Some(m.version));
    assert(m.version <= 9);
    // Each parsed header pair is well formed: the name stops at the first
    // separator, and no piece of a split line holds a line separator.
    lemma_split_pieces_clean(head_of(t), crlf());
    lemma_take_until_empty_prefix(head_lines_of(t).drop_first());
    assert forall|i: int| 0 <= i < m.headers.len() implies header_wf(
        (#[trigger] m.headers[i]).0,
        m.headers[i].1,
    ) by {
        let hline = hlines[i];
        assert(hline == head_lines_of(t).drop_first()[i]);
        assert(hline == head_lines_of(t)[i + 1]);
        assert(no_crlf(hline));
        assert(header_line_ok(hline));
        lemma_find_props(hline, header_sep(), 0);
        let f = spec_find(hline, header_sep(), 0)->Some_0;
        let k = hline.subrange(0, f);
        let v = hline.subrange(f + 2, hline.len() as int);
        assert(m.headers[i] == (k, v));
        assert forall|j: int| !occurs_at(k, header_sep(), j) by {
            if occurs_at(k, header_sep(), j) {
                assert(hline.subrange(j, j + 2) =~= k.subrange(j, j + 2));
                assert(occurs_at(hline, header_sep(), j));
            }
        }
        assert forall|j: int| !occurs_at(k, crlf(), j) by {
            if occurs_at(k, crlf(), j) {
                assert(hline.subrange(j, j + 2) =~= k.subrange(j, j + 2));
                assert(occurs_at(hline, crlf(), j));
            }
        }
        assert forall|j: int| !occurs_at(v, crlf(), j) by {
            if occurs_at(v, crlf(), j) {
                assert(hline.subrange(f + 2 + j, f + 2 + j + 2) =~= v.subrange(j, j + 2));
                assert(occurs_at(hline, crlf(), f + 2 + j));
            }
        }
    }
    lemma_parse_request_text(m.method, m.path, m.version, m.headers, m.body);
    assert(m == ReqModel {
        method: m.method,
        path: m.path,
        version: m.version,
        headers: m.headers,
        body: m.body,
    });
}

} // verus!
