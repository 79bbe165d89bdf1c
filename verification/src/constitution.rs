//! The constitution: a named collection of requirements, stored as text.
//!
//! One requirement per line; `#` comments and blank lines are allowed;
//! parsing is strict:
//!
//! ```text
//! require-connectivity <node-a> <node-b>
//! prohibit-connectivity <node-a> <node-b>
//! ```
//!
//! Structural invariants always apply and are not listed in the text.
use vstd::prelude::*;
use crate::text::{owned, str_eq};
use crate::model::{valid_id, validate_id, id_reason, push_str, ModelError, pair_views, id_byte_ok};
use crate::describe::{debug_str, debug_str_spec, model_error_text};
use crate::diff::str_views;

verus! {

/// A parsed constitution.
#[derive(Debug, Clone, Default, PartialEq, Eq)]
pub struct Constitution {
    /// Ordered pairs `(from, to)` that must be connected (node level).
    pub connectivity_requirements: Vec<(String, String)>,
    /// Ordered pairs `(from, to)` that must not be connected.
    pub prohibited_connectivity: Vec<(String, String)>,
}

/// A rejected line, numbered from 1.
#[derive(Debug, Clone, PartialEq, Eq)]
pub struct ConstitutionError {
    pub line: usize,
    pub message: String,
}

/// Whitespace as `char::is_whitespace` has it (the Unicode `White_Space`
/// property).
pub open spec fn is_ws(c: char) -> bool {
    ||| c == ' '
    ||| ('\t' <= c && c <= '\r')
    ||| c == '\u{85}'
    ||| c == '\u{a0}'
    ||| c == '\u{1680}'
    ||| ('\u{2000}' <= c && c <= '\u{200a}')
    ||| c == '\u{2028}'
    ||| c == '\u{2029}'
    ||| c == '\u{202f}'
    ||| c == '\u{205f}'
    ||| c == '\u{3000}'
}

fn is_ws_char(c: char) -> (r: bool)
    ensures
        r == is_ws(c),
{
    c == ' ' || ('\t' <= c && c <= '\r') || c == '\u{85}' || c == '\u{a0}' || c == '\u{1680}' || (
    '\u{2000}' <= c && c <= '\u{200a}') || c == '\u{2028}' || c == '\u{2029}' || c == '\u{202f}' || c
        == '\u{205f}' || c == '\u{3000}'
}

/// Close the current word: keep it when not empty.
pub open spec fn close_word(words: Seq<Seq<char>>, cur: Seq<char>) -> Seq<Seq<char>> {
    if cur.len() > 0 {
        words.push(cur)
    } else {
        words
    }
}

/// Scan text left to right: the words of the finished lines, the words of
/// the current line, and the current word.
pub open spec fn scan(t: Seq<char>) -> (Seq<Seq<Seq<char>>>, Seq<Seq<char>>, Seq<char>)
    decreases t.len(),
{
    if t.len() == 0 {
        (Seq::empty(), Seq::empty(), Seq::empty())
    } else {
        let (ls, words, cur) = scan(t.drop_last());
        let c = t.last();
        if c == '\n' {
            (ls.push(close_word(words, cur)), Seq::empty(), Seq::empty())
        } else if is_ws(c) {
            (ls, close_word(words, cur), Seq::empty())
        } else {
            (ls, words, cur.push(c))
        }
    }
}

/// The whitespace-separated words of each line of the text.
pub open spec fn line_words(t: Seq<char>) -> Seq<Seq<Seq<char>>> {
    let (ls, words, cur) = scan(t);
    ls.push(close_word(words, cur))
}

/// A blank line or a comment.
pub open spec fn skipped(ws: Seq<Seq<char>>) -> bool {
    ws.len() == 0 || (ws[0].len() > 0 && ws[0][0] == '#')
}

/// The complaint about a line that is neither skipped nor a valid
/// requirement, if any.
pub open spec fn line_problem(ws: Seq<Seq<char>>) -> Option<Seq<char>> {
    if skipped(ws) {
        None
    } else if ws[0] != "require-connectivity"@ && ws[0] != "prohibit-connectivity"@ {
        Some("unknown requirement "@ + debug_str_spec(ws[0]))
    } else if ws.len() < 3 {
        Some(ws[0] + " needs two node identifiers"@)
    } else if ws.len() > 3 {
        Some("too many arguments"@)
    } else if !valid_id(ws[1]) {
        Some("invalid identifier "@ + debug_str_spec(ws[1]) + ": "@ + id_reason(ws[1]))
    } else if !valid_id(ws[2]) {
        Some("invalid identifier "@ + debug_str_spec(ws[2]) + ": "@ + id_reason(ws[2]))
    } else {
        None
    }
}

/// The outcome of parsing some lines: whether all were fine, the required
/// and the prohibited pairs in file order, and for a failure the number of
/// the first bad line and its complaint.
pub type ParseOutcome = (bool, Seq<(Seq<char>, Seq<char>)>, Seq<(Seq<char>, Seq<char>)>, nat, Seq<char>);

/// The outcome after one more line, the `k`-th.
pub open spec fn line_step(prev: ParseOutcome, ws: Seq<Seq<char>>, k: nat) -> ParseOutcome {
    if !prev.0 {
        prev
    } else if line_problem(ws) is Some {
        (false, prev.1, prev.2, k, line_problem(ws)->0)
    } else if skipped(ws) {
        prev
    } else if ws[0] == "require-connectivity"@ {
        (true, prev.1.push((ws[1], ws[2])), prev.2, 0, Seq::empty())
    } else {
        (true, prev.1, prev.2.push((ws[1], ws[2])), 0, Seq::empty())
    }
}

/// The outcome of a sequence of lines.
pub open spec fn parse_lines(ls: Seq<Seq<Seq<char>>>) -> ParseOutcome
    decreases ls.len(),
{
    if ls.len() == 0 {
        (true, Seq::empty(), Seq::empty(), 0, Seq::empty())
    } else {
        line_step(parse_lines(ls.drop_last()), ls.last(), ls.len())
    }
}

/// The outcome of parsing a whole text.
pub open spec fn parse_text(t: Seq<char>) -> (
    bool,
    Seq<(Seq<char>, Seq<char>)>,
    Seq<(Seq<char>, Seq<char>)>,
    nat,
    Seq<char>,
) {
    parse_lines(line_words(t))
}

/// A string holding the given characters.
///
/// Trusted: calls `String::from_iter` over the characters, documented to
/// collect them in order.
#[verifier::external_body]
fn string_of(cs: &Vec<char>) -> (r: String)
    ensures
        r@ == cs@,
{
    String::from_iter(cs.iter())
}

/// The characters of a string, in order.
fn chars_of(s: &str) -> (r: Vec<char>)
    ensures
        r@ == s@,
{
    let mut out: Vec<char> = Vec::new();
    for c in it: s.chars()
        invariant
            out@ == it.seq().take(it.index() as int),
            it.seq() == s@,
            it.index() == it.seq().len() ==> out@ == s@,
    {
        out.push(c);
        proof {
            assert(it.seq().take(it.index() + 1) =~= it.seq().take(it.index() as int).push(c));
        }
    }
    out
}

/// The views of a list of words.
pub open spec fn word_views(ws: Seq<Vec<char>>) -> Seq<Seq<char>> {
    ws.map_values(|w: Vec<char>| w@)
}

/// A failed outcome stays failed whatever lines follow.
proof fn lemma_failed_prefix(ls: Seq<Seq<Seq<char>>>, k: int)
    requires
        0 <= k <= ls.len(),
        !parse_lines(ls.take(k)).0,
    ensures
        parse_lines(ls) == parse_lines(ls.take(k)),
    decreases ls.len() - k,
{
    if k < ls.len() {
        assert(ls.drop_last().take(k) =~= ls.take(k));
        lemma_failed_prefix(ls.drop_last(), k);
    } else {
        assert(ls.take(k) =~= ls);
    }
}

/// The finished lines of a prefix are a prefix of the text's lines.
proof fn lemma_scan_prefix(t: Seq<char>, i: int)
    requires
        0 <= i <= t.len(),
    ensures
        scan(t.take(i)).0.len() <= line_words(t).len(),
        line_words(t).take(scan(t.take(i)).0.len() as int) == scan(t.take(i)).0,
    decreases t.len() - i,
{
    if i == t.len() {
        assert(t.take(i) =~= t);
        assert(line_words(t).take(scan(t).0.len() as int) =~= scan(t).0);
    } else {
        lemma_scan_prefix(t, i + 1);
        assert(t.take(i + 1).drop_last() =~= t.take(i));
        let a = scan(t.take(i)).0;
        let b = scan(t.take(i + 1)).0;
        assert(b.take(a.len() as int) =~= a);
        assert(line_words(t).take(a.len() as int) =~= line_words(t).take(b.len() as int).take(a.len() as int));
    }
}

/// Classify one line's words: skipped (`None`), a requirement
/// (`Some((required, a, b))`), or a complaint.
fn line_verdict(ws: &Vec<Vec<char>>) -> (r: Result<Option<(bool, String, String)>, String>)
    ensures
        r is Err <==> line_problem(word_views(ws@)) is Some,
        r matches Err(m) ==> m@ == line_problem(word_views(ws@))->0,
        r matches Ok(None) ==> skipped(word_views(ws@)),
        r matches Ok(Some(x)) ==> !skipped(word_views(ws@)) && x.0 == (word_views(ws@)[0]
            == "require-connectivity"@) && x.1@ == word_views(ws@)[1] && x.2@ == word_views(ws@)[2],
{
    let ghost wv = word_views(ws@);
    if ws.len() == 0 {
        return Ok(None);
    }
    proof {
        assert(wv[0] == ws@[0]@);
    }
    if ws[0].len() > 0 && ws[0][0] == '#' {
        return Ok(None);
    }
    let kw = string_of(&ws[0]);
    let is_req = str_eq(kw.as_str(), "require-connectivity");
    let is_proh = str_eq(kw.as_str(), "prohibit-connectivity");
    if !is_req && !is_proh {
        let mut m = owned("unknown requirement ");
        let q = debug_str(kw.as_str());
        push_str(&mut m, q.as_str());
        return Err(m);
    }
    if ws.len() < 3 {
        let mut m = kw;
        push_str(&mut m, " needs two node identifiers");
        return Err(m);
    }
    if ws.len() > 3 {
        return Err(owned("too many arguments"));
    }
    let a = string_of(&ws[1]);
    let b = string_of(&ws[2]);
    proof {
        assert(wv[1] == ws@[1]@);
        assert(wv[2] == ws@[2]@);
    }
    match validate_id(a.as_str()) {
        Ok(()) => {},
        Err(e) => {
            return Err(e.message());
        },
    }
    match validate_id(b.as_str()) {
        Ok(()) => {},
        Err(e) => {
            return Err(e.message());
        },
    }
    Ok(Some((is_req, a, b)))
}

/// The outcome so far when every line was fine.
pub open spec fn good(conn: Seq<(String, String)>, proh: Seq<(String, String)>) -> ParseOutcome {
    (true, pair_views(conn), pair_views(proh), 0, Seq::empty())
}

/// Take in one line, the `k`-th.
fn absorb(
    ws: &Vec<Vec<char>>,
    k: usize,
    conn: &mut Vec<(String, String)>,
    proh: &mut Vec<(String, String)>,
) -> (r: Result<(), ConstitutionError>)
    ensures
        r is Ok <==> line_step(good(old(conn)@, old(proh)@), word_views(ws@), k as nat).0,
        r is Ok ==> line_step(good(old(conn)@, old(proh)@), word_views(ws@), k as nat) == good(
            final(conn)@,
            final(proh)@,
        ),
        r matches Err(e) ==> line_step(good(old(conn)@, old(proh)@), word_views(ws@), k as nat) == (
        false, pair_views(old(conn)@), pair_views(old(proh)@), k as nat, e.message@) && e.line == k,
{
    match line_verdict(ws) {
        Err(m) => Err(ConstitutionError { line: k, message: m }),
        Ok(None) => Ok(()),
        Ok(Some((is_req, a, b))) => {
            let ghost ca = a@;
            let ghost cb = b@;
            if is_req {
                let ghost before = conn@;
                conn.push((a, b));
                proof {
                    assert(pair_views(conn@) =~= pair_views(before).push((ca, cb)));
                }
            } else {
                let ghost before = proh@;
                proh.push((a, b));
                proof {
                    assert(pair_views(proh@) =~= pair_views(before).push((ca, cb)));
                }
            }
            Ok(())
        },
    }
}

/// A newline at the end of a text changes nothing: the last line counts
/// whether or not it is terminated.
pub proof fn law_final_newline_is_optional(t: Seq<char>)
    ensures
        parse_text(t.push('\n')) == parse_text(t),
{
    let u = t.push('\n');
    assert(u.drop_last() =~= t);
    assert(u.last() == '\n');
    let (ls, words, cur) = scan(t);
    assert(scan(u) == (ls.push(close_word(words, cur)), Seq::<Seq<char>>::empty(), Seq::<char>::empty()));
    assert(close_word(Seq::<Seq<char>>::empty(), Seq::<char>::empty()) =~= Seq::<Seq<char>>::empty());
    let l = line_words(t);
    assert(line_words(u) == l.push(Seq::<Seq<char>>::empty()));
    assert(l.push(Seq::<Seq<char>>::empty()).drop_last() =~= l);
    assert(skipped(Seq::<Seq<char>>::empty()));
}

/// A word (no whitespace) appended to a text extends its current word.
proof fn lemma_scan_word(p: Seq<char>, w: Seq<char>)
    requires
        forall|i: int| 0 <= i < w.len() ==> !is_ws(#[trigger] w[i]),
    ensures
        scan(p + w) == (scan(p).0, scan(p).1, scan(p).2 + w),
    decreases w.len(),
{
    if w.len() == 0 {
        assert(p + w =~= p);
        assert(scan(p).2 + w =~= scan(p).2);
    } else {
        let v = w.drop_last();
        lemma_scan_word(p, v);
        assert((p + w).drop_last() =~= p + v);
        assert((p + w).last() == w.last());
        assert(!is_ws(w[w.len() - 1]));
        assert(scan(p).2 + v.push(w.last()) =~= scan(p).2 + w);
        assert((scan(p).2 + v).push(w.last()) =~= scan(p).2 + w);
    }
}

/// A space appended to a text closes its current word.
proof fn lemma_scan_space(p: Seq<char>)
    ensures
        scan(p.push(' ')) == (scan(p).0, close_word(scan(p).1, scan(p).2), Seq::<char>::empty()),
{
    assert(p.push(' ').drop_last() =~= p);
    assert(is_ws(' '));
}

/// The words of the line `kw x y`.
proof fn lemma_three_words(kw: Seq<char>, x: Seq<char>, y: Seq<char>)
    requires
        kw.len() > 0,
        x.len() > 0,
        y.len() > 0,
        forall|i: int| 0 <= i < kw.len() ==> !is_ws(#[trigger] kw[i]),
        forall|i: int| 0 <= i < x.len() ==> !is_ws(#[trigger] x[i]),
        forall|i: int| 0 <= i < y.len() ==> !is_ws(#[trigger] y[i]),
    ensures
        line_words(kw + " "@ + x + " "@ + y) == seq![seq![kw, x, y]],
{
    reveal_strlit(" ");
    let e = Seq::<char>::empty();
    assert(scan(e) == (Seq::<Seq<Seq<char>>>::empty(), Seq::<Seq<char>>::empty(), e));
    lemma_scan_word(e, kw);
    assert(e + kw =~= kw);
    assert(e + kw == kw);
    assert(scan(kw).2 == kw) by {
        assert(e + kw =~= kw);
    }
    let p1 = kw + " "@;
    assert(p1 =~= kw.push(' '));
    lemma_scan_space(kw);
    lemma_scan_word(p1, x);
    let p2 = p1 + x + " "@;
    assert(p2 =~= (p1 + x).push(' '));
    lemma_scan_space(p1 + x);
    lemma_scan_word(p2, y);
    assert(scan(p1).2 + x =~= x);
    assert(scan(p2).2 + y =~= y);
    assert(close_word(Seq::<Seq<char>>::empty(), kw) =~= seq![kw]);
    assert(close_word(seq![kw], x) =~= seq![kw, x]);
    assert(close_word(seq![kw, x], y) =~= seq![kw, x, y]);
    assert(Seq::<Seq<Seq<char>>>::empty().push(seq![kw, x, y]) =~= seq![seq![kw, x, y]]);
}

/// A character whose UTF-8 encoding starts with an identifier byte is
/// not whitespace.
proof fn lemma_id_lead_not_ws(c: char)
    requires
        id_byte_ok(vstd::utf8::encode_scalar(c as u32)[0]),
    ensures
        !is_ws(c),
{
    let u = c as u32;
    let e = vstd::utf8::encode_scalar(u);
    if u <= 0x7F {
        assert(e[0] == (u & 0x7F) as u8);
        assert((u & 0x7F) == u) by (bit_vector)
            requires
                u <= 0x7F,
        ;
    } else {
        assert(e[0] >= 0xC0) by {
            if vstd::utf8::has_width_2_encoding(u) {
                assert((0xC0u8 | ((u >> 6) & 0x1F) as u8) >= 0xC0u8) by (bit_vector);
            } else if vstd::utf8::has_width_3_encoding(u) {
                assert((0xE0u8 | ((u >> 12) & 0x0F) as u8) >= 0xC0u8) by (bit_vector);
            } else {
                assert((0xF0u8 | ((u >> 18) & 0x7) as u8) >= 0xC0u8) by (bit_vector);
            }
        }
    }
}

/// Identifiers hold no whitespace, and are not empty.
proof fn lemma_id_word(x: Seq<char>)
    requires
        valid_id(x),
    ensures
        x.len() > 0,
        forall|i: int| 0 <= i < x.len() ==> !is_ws(#[trigger] x[i]),
{
    let b = crate::text::sbytes(x);
    if x.len() == 0 {
        assert(b =~= Seq::<u8>::empty());
    }
    assert forall|i: int| 0 <= i < x.len() implies !is_ws(#[trigger] x[i]) by {
        let rest = x.skip(i);
        crate::text::lemma_sbytes_concat(x.take(i), rest);
        assert(x.take(i) + rest =~= x);
        let pre = crate::text::sbytes(x.take(i));
        let r = crate::text::sbytes(rest);
        assert(rest[0] == x[i]);
        assert(r == vstd::utf8::encode_scalar(x[i] as u32) + crate::text::sbytes(rest.drop_first()));
        let e = vstd::utf8::encode_scalar(x[i] as u32);
        assert(e.len() >= 1);
        assert(b == pre + r);
        assert(b[pre.len() as int] == r[0]);
        assert(r[0] == e[0]);
        assert(pre.len() < b.len());
        assert(id_byte_ok(b[pre.len() as int]));
        lemma_id_lead_not_ws(x[i]);
    }
}

/// A one-line constitution `require-connectivity x y` (or
/// `prohibit-connectivity x y`), with or without a final newline, holds
/// exactly that one requirement.
pub proof fn law_one_requirement_line(x: Seq<char>, y: Seq<char>)
    requires
        valid_id(x),
        valid_id(y),
    ensures
        parse_text("require-connectivity"@ + " "@ + x + " "@ + y) == (
            true,
            seq![(x, y)],
            Seq::<(Seq<char>, Seq<char>)>::empty(),
            0nat,
            Seq::<char>::empty(),
        ),
        parse_text("prohibit-connectivity"@ + " "@ + x + " "@ + y) == (
            true,
            Seq::<(Seq<char>, Seq<char>)>::empty(),
            seq![(x, y)],
            0nat,
            Seq::<char>::empty(),
        ),
{
    reveal_strlit("require-connectivity");
    reveal_strlit("prohibit-connectivity");
    lemma_id_word(x);
    lemma_id_word(y);
    let r = "require-connectivity"@;
    let q = "prohibit-connectivity"@;
    assert(forall|i: int| 0 <= i < r.len() ==> !is_ws(#[trigger] r[i]));
    assert(forall|i: int| 0 <= i < q.len() ==> !is_ws(#[trigger] q[i]));
    lemma_three_words(r, x, y);
    lemma_three_words(q, x, y);
    let lr = seq![seq![r, x, y]];
    let lq = seq![seq![q, x, y]];
    assert(lr.drop_last() =~= Seq::<Seq<Seq<char>>>::empty());
    assert(lq.drop_last() =~= Seq::<Seq<Seq<char>>>::empty());
    assert(r != q);
    assert(seq![r, x, y][0] == r);
    assert(seq![q, x, y][0] == q);
    assert(!skipped(seq![r, x, y]));
    assert(!skipped(seq![q, x, y]));
    assert(Seq::<(Seq<char>, Seq<char>)>::empty().push((x, y)) =~= seq![(x, y)]);
    let z: ParseOutcome = (true, Seq::empty(), Seq::empty(), 0, Seq::empty());
    assert(parse_lines(Seq::<Seq<Seq<char>>>::empty()) == z);
    let wr = seq![r, x, y];
    let wq = seq![q, x, y];
    assert(wr.len() == 3 && wr[1] == x && wr[2] == y);
    assert(wq.len() == 3 && wq[1] == x && wq[2] == y);
    assert(line_problem(wr) is None);
    assert(line_problem(wq) is None);
    assert(lr.last() == wr);
    assert(lq.last() == wq);
    assert(parse_lines(lr) == line_step(z, wr, 1));
    assert(parse_lines(lq) == line_step(z, wq, 1));
    assert(line_step(z, wr, 1) == (true, z.1.push((x, y)), z.2, 0nat, Seq::<char>::empty()));
    assert(line_step(z, wq, 1) == (true, z.1, z.2.push((x, y)), 0nat, Seq::<char>::empty()));
    assert(parse_text(r + " "@ + x + " "@ + y) == parse_lines(lr));
    assert(parse_text(q + " "@ + x + " "@ + y) == parse_lines(lq));
}

impl Constitution {
    /// Parse the constitution text: one requirement per line, `#` comments
    /// and blank lines allowed, strict.
    pub fn parse(text: &str) -> (r: Result<Constitution, ConstitutionError>)
        requires
            text@.len() < usize::MAX,
        ensures
            r is Ok <==> parse_text(text@).0,
            r matches Ok(c) ==> pair_views(c.connectivity_requirements@) == parse_text(text@).1
                && pair_views(c.prohibited_connectivity@) == parse_text(text@).2,
            r matches Err(e) ==> e.line == parse_text(text@).3 && e.message@ == parse_text(text@).4,
    {
        let cs = chars_of(text);
        let ghost t = text@;
        let mut conn: Vec<(String, String)> = Vec::new();
        let mut proh: Vec<(String, String)> = Vec::new();
        let mut words: Vec<Vec<char>> = Vec::new();
        let mut cur: Vec<char> = Vec::new();
        let mut line_no: usize = 1;
        let ghost mut ls: Seq<Seq<Seq<char>>> = Seq::empty();
        let mut i: usize = 0;
        proof {
            assert(cs@.take(0) =~= Seq::<char>::empty());
            assert(word_views(words@) =~= Seq::<Seq<char>>::empty());
            assert(pair_views(conn@) =~= Seq::<(Seq<char>, Seq<char>)>::empty());
            assert(pair_views(proh@) =~= Seq::<(Seq<char>, Seq<char>)>::empty());
        }
        while i < cs.len()
            invariant
                cs@ == t,
                t == text@,
                t.len() < usize::MAX,
                i <= cs@.len(),
                scan(t.take(i as int)) == (ls, word_views(words@), cur@),
                line_no == ls.len() + 1,
                ls.len() <= i,
                parse_lines(ls) == good(conn@, proh@),
            decreases cs@.len() - i,
        {
            let c = cs[i];
            proof {
                assert(t.take(i + 1).drop_last() =~= t.take(i as int));
                assert(t.take(i + 1).last() == c);
            }
            let ghost w0 = word_views(words@);
            let ghost c0 = cur@;
            if c == '\n' {
                if cur.len() > 0 {
                    words.push(cur);
                    cur = Vec::new();
                    proof {
                        assert(word_views(words@) =~= w0.push(c0));
                    }
                }
                let ghost closed = word_views(words@);
                proof {
                    assert(closed == close_word(w0, c0));
                }
                match absorb(&words, line_no, &mut conn, &mut proh) {
                    Ok(()) => {},
                    Err(e) => {
                        proof {
                            let ls2 = ls.push(closed);
                            assert(scan(t.take(i + 1)).0 == ls2);
                            assert(ls2.drop_last() =~= ls);
                            assert(ls2.last() == closed);
                            assert(parse_lines(ls2) == line_step(parse_lines(ls), closed, ls2.len()));
                            assert(!parse_lines(ls2).0);
                            lemma_scan_prefix(t, i + 1);
                            assert(line_words(t).take(ls2.len() as int) == ls2);
                            lemma_failed_prefix(line_words(t), ls2.len() as int);
                            assert(parse_text(t) == parse_lines(ls2));
                        }
                        return Err(e);
                    },
                }
                proof {
                    let ls2 = ls.push(closed);
                    assert(ls2.drop_last() =~= ls);
                    ls = ls2;
                }
                words = Vec::new();
                line_no = line_no + 1;
                proof {
                    assert(word_views(words@) =~= Seq::<Seq<char>>::empty());
                }
            } else if is_ws_char(c) {
                if cur.len() > 0 {
                    words.push(cur);
                    cur = Vec::new();
                    proof {
                        assert(word_views(words@) =~= w0.push(c0));
                    }
                }
            } else {
                cur.push(c);
            }
            i = i + 1;
        }
        proof {
            assert(t.take(i as int) =~= t);
        }
        let ghost w0 = word_views(words@);
        let ghost c0 = cur@;
        if cur.len() > 0 {
            words.push(cur);
            proof {
                assert(word_views(words@) =~= w0.push(c0));
            }
        }
        proof {
            let ls2 = ls.push(word_views(words@));
            assert(line_words(t) == ls2);
            assert(ls2.drop_last() =~= ls);
        }
        match absorb(&words, line_no, &mut conn, &mut proh) {
            Ok(()) => {},
            Err(e) => {
                return Err(e);
            },
        }
        Ok(Constitution { connectivity_requirements: conn, prohibited_connectivity: proh })
    }
}

/// Requirement lines `kw a b`, one per pair.
pub open spec fn req_lines(kw: Seq<char>, v: Seq<(Seq<char>, Seq<char>)>) -> Seq<char>
    decreases v.len(),
{
    if v.len() == 0 {
        Seq::empty()
    } else {
        req_lines(kw, v.drop_last()) + kw + " "@ + v.last().0 + " "@ + v.last().1 + "\n"@
    }
}

/// The text form of a constitution.
pub open spec fn constitution_text(
    conn: Seq<(Seq<char>, Seq<char>)>,
    proh: Seq<(Seq<char>, Seq<char>)>,
) -> Seq<char> {
    "# RAHN constitution\n"@ + req_lines("require-connectivity"@, conn) + req_lines(
        "prohibit-connectivity"@,
        proh,
    )
}

fn push_req_lines(out: &mut String, kw: &str, v: &Vec<(String, String)>)
    ensures
        final(out)@ == old(out)@ + req_lines(kw@, pair_views(v@)),
{
    let ghost start = out@;
    let ghost pv = pair_views(v@);
    let mut i: usize = 0;
    proof {
        assert(pv.take(0) =~= Seq::<(Seq<char>, Seq<char>)>::empty());
        assert(out@ =~= start + req_lines(kw@, pv.take(0)));
    }
    while i < v.len()
        invariant
            i <= v@.len(),
            pv == pair_views(v@),
            out@ == start + req_lines(kw@, pv.take(i as int)),
        decreases v@.len() - i,
    {
        push_str(out, kw);
        push_str(out, " ");
        push_str(out, v[i].0.as_str());
        push_str(out, " ");
        push_str(out, v[i].1.as_str());
        push_str(out, "\n");
        proof {
            let t = pv.take(i + 1);
            assert(t.drop_last() =~= pv.take(i as int));
            assert(t.last() == (v@[i as int].0@, v@[i as int].1@));
            assert(out@ =~= start + req_lines(kw@, t));
        }
        i = i + 1;
    }
    proof {
        assert(pv.take(v@.len() as int) =~= pv);
    }
}

impl Constitution {
    /// Render back to the text format.
    pub fn to_text(&self) -> (r: String)
        ensures
            r@ == constitution_text(
                pair_views(self.connectivity_requirements@),
                pair_views(self.prohibited_connectivity@),
            ),
    {
        let mut out = owned("# RAHN constitution\n");
        push_req_lines(&mut out, "require-connectivity", &self.connectivity_requirements);
        push_req_lines(&mut out, "prohibit-connectivity", &self.prohibited_connectivity);
        out
    }
}

} // verus!
