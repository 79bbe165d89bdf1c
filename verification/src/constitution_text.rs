//! The text form of a constitution reads back as the same requirements.
use vstd::prelude::*;
use vstd::utf8::*;
use crate::text::sbytes;
use crate::model::{valid_id, valid_id_bytes, id_byte_ok};
use crate::constitution::{
    scan, line_words, close_word, is_ws, parse_lines, parse_text, line_step, line_problem, skipped,
    req_lines, constitution_text, ParseOutcome,
};

verus! {

/// One character of scanning.
pub open spec fn scan_step(
    st: (Seq<Seq<Seq<char>>>, Seq<Seq<char>>, Seq<char>),
    c: char,
) -> (Seq<Seq<Seq<char>>>, Seq<Seq<char>>, Seq<char>) {
    if c == '\n' {
        (st.0.push(close_word(st.1, st.2)), Seq::empty(), Seq::empty())
    } else if is_ws(c) {
        (st.0, close_word(st.1, st.2), Seq::empty())
    } else {
        (st.0, st.1, st.2.push(c))
    }
}

/// Scanning more text from a given state.
pub open spec fn scan_from(
    st: (Seq<Seq<Seq<char>>>, Seq<Seq<char>>, Seq<char>),
    b: Seq<char>,
) -> (Seq<Seq<Seq<char>>>, Seq<Seq<char>>, Seq<char>)
    decreases b.len(),
{
    if b.len() == 0 {
        st
    } else {
        scan_step(scan_from(st, b.drop_last()), b.last())
    }
}

proof fn lemma_scan_is_from(t: Seq<char>)
    ensures
        scan(t) == scan_from((Seq::empty(), Seq::empty(), Seq::empty()), t),
    decreases t.len(),
{
    if t.len() > 0 {
        lemma_scan_is_from(t.drop_last());
    }
}

proof fn lemma_scan_from_append(
    st: (Seq<Seq<Seq<char>>>, Seq<Seq<char>>, Seq<char>),
    x: Seq<char>,
    y: Seq<char>,
)
    ensures
        scan_from(st, x + y) == scan_from(scan_from(st, x), y),
    decreases y.len(),
{
    if y.len() == 0 {
        assert(x + y =~= x);
    } else {
        assert((x + y).drop_last() =~= x + y.drop_last());
        assert((x + y).last() == y.last());
        lemma_scan_from_append(st, x, y.drop_last());
    }
}

/// A word: at least one character, none of them whitespace.
pub open spec fn is_word(w: Seq<char>) -> bool {
    w.len() > 0 && forall|i: int| 0 <= i < w.len() ==> !is_ws(#[trigger] w[i]) && w[i] != '\n'
}

proof fn lemma_scan_word(ls: Seq<Seq<Seq<char>>>, words: Seq<Seq<char>>, cur: Seq<char>, w: Seq<char>)
    requires
        forall|i: int| 0 <= i < w.len() ==> !is_ws(#[trigger] w[i]) && w[i] != '\n',
    ensures
        scan_from((ls, words, cur), w) == (ls, words, cur + w),
    decreases w.len(),
{
    if w.len() == 0 {
        assert(cur + w =~= cur);
    } else {
        lemma_scan_word(ls, words, cur, w.drop_last());
        assert(cur + w.drop_last() + seq![w.last()] =~= cur + w);
        assert((cur + w.drop_last()).push(w.last()) =~= cur + w);
    }
}

proof fn lemma_scan_space(st: (Seq<Seq<Seq<char>>>, Seq<Seq<char>>, Seq<char>))
    ensures
        scan_from(st, " "@) == (st.0, close_word(st.1, st.2), Seq::<char>::empty()),
{
    reveal_strlit(" ");
    assert(" "@.drop_last() =~= Seq::<char>::empty());
    assert(" "@.last() == ' ');
    assert(scan_from(st, Seq::<char>::empty()) == st);
    assert(is_ws(' '));
}

proof fn lemma_scan_newline(st: (Seq<Seq<Seq<char>>>, Seq<Seq<char>>, Seq<char>))
    ensures
        scan_from(st, "\n"@) == (st.0.push(close_word(st.1, st.2)), Seq::<Seq<char>>::empty(), Seq::<char>::empty()),
{
    reveal_strlit("\n");
    assert("\n"@.drop_last() =~= Seq::<char>::empty());
    assert("\n"@.last() == '\n');
    assert(scan_from(st, Seq::<char>::empty()) == st);
}

/// The line `x y z` followed by a newline scans as one line of three words.
proof fn lemma_scan_line(ls: Seq<Seq<Seq<char>>>, x: Seq<char>, y: Seq<char>, z: Seq<char>)
    requires
        is_word(x),
        is_word(y),
        is_word(z),
    ensures
        scan_from((ls, Seq::empty(), Seq::empty()), x + " "@ + y + " "@ + z + "\n"@) == (
            ls.push(seq![x, y, z]),
            Seq::<Seq<char>>::empty(),
            Seq::<char>::empty(),
        ),
{
    let e = Seq::<char>::empty();
    let st0 = (ls, Seq::<Seq<char>>::empty(), e);
    lemma_scan_from_append(st0, x + " "@ + y + " "@ + z, "\n"@);
    lemma_scan_from_append(st0, x + " "@ + y + " "@, z);
    lemma_scan_from_append(st0, x + " "@ + y, " "@);
    lemma_scan_from_append(st0, x + " "@, y);
    lemma_scan_from_append(st0, x, " "@);
    lemma_scan_word(ls, Seq::empty(), e, x);
    assert(e + x =~= x);
    let st1 = (ls, Seq::<Seq<char>>::empty(), x);
    lemma_scan_space(st1);
    let st2 = (ls, seq![x], e);
    assert(close_word(Seq::<Seq<char>>::empty(), x) =~= seq![x]);
    lemma_scan_word(ls, seq![x], e, y);
    assert(e + y =~= y);
    let st3 = (ls, seq![x], y);
    lemma_scan_space(st3);
    assert(close_word(seq![x], y) =~= seq![x, y]);
    lemma_scan_word(ls, seq![x, y], e, z);
    assert(e + z =~= z);
    let st5 = (ls, seq![x, y], z);
    lemma_scan_newline(st5);
    assert(close_word(seq![x, y], z) =~= seq![x, y, z]);
}

/// The lines of requirements with keyword `kw`, as words.
pub open spec fn req_words(kw: Seq<char>, v: Seq<(Seq<char>, Seq<char>)>) -> Seq<Seq<Seq<char>>> {
    v.map_values(|p: (Seq<char>, Seq<char>)| seq![kw, p.0, p.1])
}

proof fn lemma_scan_req_lines(ls: Seq<Seq<Seq<char>>>, kw: Seq<char>, v: Seq<(Seq<char>, Seq<char>)>)
    requires
        is_word(kw),
        forall|i: int| 0 <= i < v.len() ==> is_word((#[trigger] v[i]).0) && is_word(v[i].1),
    ensures
        scan_from((ls, Seq::empty(), Seq::empty()), req_lines(kw, v)) == (
            ls + req_words(kw, v),
            Seq::<Seq<char>>::empty(),
            Seq::<char>::empty(),
        ),
    decreases v.len(),
{
    if v.len() == 0 {
        assert(ls + req_words(kw, v) =~= ls);
        assert(req_lines(kw, v) =~= Seq::<char>::empty());
    } else {
        let p = v.drop_last();
        assert forall|i: int| 0 <= i < p.len() implies is_word((#[trigger] p[i]).0) && is_word(p[i].1) by {
            assert(p[i] == v[i]);
        }
        lemma_scan_req_lines(ls, kw, p);
        let last = v.last();
        assert(is_word(last.0) && is_word(last.1)) by {
            assert(last == v[v.len() - 1]);
        }
        lemma_scan_from_append((ls, Seq::empty(), Seq::empty()), req_lines(kw, p), kw + " "@ + last.0 + " "@ + last.1 + "\n"@);
        assert(req_lines(kw, v) =~= req_lines(kw, p) + (kw + " "@ + last.0 + " "@ + last.1 + "\n"@));
        lemma_scan_line(ls + req_words(kw, p), kw, last.0, last.1);
        assert((ls + req_words(kw, p)).push(seq![kw, last.0, last.1]) =~= ls + req_words(kw, v));
    }
}

/// The characters of a valid identifier are ASCII identifier bytes.
proof fn lemma_id_chars(s: Seq<char>)
    requires
        forall|i: int| 0 <= i < encode_utf8(s).len() ==> id_byte_ok(#[trigger] encode_utf8(s)[i]),
    ensures
        forall|i: int| 0 <= i < s.len() ==> ((#[trigger] s[i]) as u32) < 128 && id_byte_ok((s[i] as u32) as u8),
    decreases s.len(),
{
    if s.len() > 0 {
        let c = s[0] as u32;
        let head = encode_scalar(c);
        let rest = encode_utf8(s.drop_first());
        assert(encode_utf8(s) == head + rest);
        assert forall|i: int| 0 <= i < rest.len() implies id_byte_ok(#[trigger] rest[i]) by {
            assert(encode_utf8(s)[head.len() + i] == rest[i]);
        }
        lemma_id_chars(s.drop_first());
        assert(id_byte_ok(encode_utf8(s)[0]));
        assert(encode_utf8(s)[0] == head[0]);
        if has_width_1_encoding(c) {
            assert(head[0] == leading_byte_width_1(c));
            assert(leading_byte_width_1(c) == c as u8) by (bit_vector)
                requires
                    c <= 0x7F,
            ;
        } else if has_width_2_encoding(c) {
            assert(head[0] == leading_byte_width_2(c));
            assert(leading_byte_width_2(c) >= 0xC0) by (bit_vector);
        } else if has_width_3_encoding(c) {
            assert(head[0] == leading_byte_width_3(c));
            assert(leading_byte_width_3(c) >= 0xE0) by (bit_vector);
        } else {
            assert(head[0] == leading_byte_width_4(c));
            assert(leading_byte_width_4(c) >= 0xF0) by (bit_vector);
        }
        assert forall|i: int| 0 <= i < s.len() implies ((#[trigger] s[i]) as u32) < 128 && id_byte_ok(
            (s[i] as u32) as u8,
        ) by {
            if i > 0 {
                assert(s[i] == s.drop_first()[i - 1]);
            }
        }
    }
}

/// A valid identifier is a word.
proof fn lemma_id_is_word(s: Seq<char>)
    requires
        valid_id(s),
    ensures
        is_word(s),
{
    lemma_id_chars(s);
    assert(encode_utf8(s).len() > 0);
    if s.len() == 0 {
        assert(encode_utf8(s) =~= Seq::<u8>::empty());
    }
    assert forall|i: int| 0 <= i < s.len() implies !is_ws(#[trigger] s[i]) && s[i] != '\n' by {
        let c = s[i];
        let v = c as u32;
        assert(v < 128 && id_byte_ok(v as u8));
        assert((v as u8) as u32 == v) by (bit_vector)
            requires
                v < 128,
        ;
    }
}

/// The outcome of parsing lines that follow a good outcome, when they are
/// all valid requirements with the keyword `kw`.
proof fn lemma_parse_req_lines(
    pre: Seq<Seq<Seq<char>>>,
    kw: Seq<char>,
    v: Seq<(Seq<char>, Seq<char>)>,
    req: bool,
)
    requires
        parse_lines(pre).0,
        parse_lines(pre).3 == 0,
        parse_lines(pre).4 == Seq::<char>::empty(),
        kw == (if req {
            "require-connectivity"@
        } else {
            "prohibit-connectivity"@
        }),
        forall|i: int| 0 <= i < v.len() ==> valid_id((#[trigger] v[i]).0) && valid_id(v[i].1),
    ensures
        parse_lines(pre + req_words(kw, v)) == (if req {
            (true, parse_lines(pre).1 + v, parse_lines(pre).2, 0nat, Seq::<char>::empty())
        } else {
            (true, parse_lines(pre).1, parse_lines(pre).2 + v, 0nat, Seq::<char>::empty())
        }),
    decreases v.len(),
{
    reveal_strlit("require-connectivity");
    reveal_strlit("prohibit-connectivity");
    if v.len() == 0 {
        assert(pre + req_words(kw, v) =~= pre);
        assert(parse_lines(pre).1 + v =~= parse_lines(pre).1);
        assert(parse_lines(pre).2 + v =~= parse_lines(pre).2);
    } else {
        let p = v.drop_last();
        assert forall|i: int| 0 <= i < p.len() implies valid_id((#[trigger] p[i]).0) && valid_id(p[i].1) by {
            assert(p[i] == v[i]);
        }
        lemma_parse_req_lines(pre, kw, p, req);
        let all = pre + req_words(kw, v);
        assert(all.drop_last() =~= pre + req_words(kw, p));
        let last = v.last();
        assert(valid_id(last.0) && valid_id(last.1)) by {
            assert(last == v[v.len() - 1]);
        }
        let ws = seq![kw, last.0, last.1];
        assert(all.last() == ws);
        assert(kw[0] != '#');
        assert(!skipped(ws));
        assert(line_problem(ws) is None);
        if req {
            assert(parse_lines(pre).1 + p + seq![(last.0, last.1)] =~= parse_lines(pre).1 + v);
            assert((parse_lines(pre).1 + p).push((last.0, last.1)) =~= parse_lines(pre).1 + v);
        } else {
            assert(kw != "require-connectivity"@);
            assert((parse_lines(pre).2 + p).push((last.0, last.1)) =~= parse_lines(pre).2 + v);
        }
    }
}

/// A constitution's text parses back to its requirements, in order, when
/// every node name is a valid identifier.
pub proof fn law_constitution_text_round_trip(req: Seq<(Seq<char>, Seq<char>)>, proh: Seq<(Seq<char>, Seq<char>)>)
    requires
        forall|i: int| 0 <= i < req.len() ==> valid_id((#[trigger] req[i]).0) && valid_id(req[i].1),
        forall|i: int| 0 <= i < proh.len() ==> valid_id((#[trigger] proh[i]).0) && valid_id(proh[i].1),
    ensures
        parse_text(constitution_text(req, proh)) == (true, req, proh, 0nat, Seq::<char>::empty()),
{
    reveal_strlit("# RAHN constitution\n");
    reveal_strlit("#");
    reveal_strlit("RAHN");
    reveal_strlit("constitution");
    reveal_strlit("require-connectivity");
    reveal_strlit("prohibit-connectivity");
    reveal_strlit(" ");
    reveal_strlit("\n");
    let e = Seq::<char>::empty();
    let none = Seq::<Seq<Seq<char>>>::empty();
    let kr = "require-connectivity"@;
    let kp = "prohibit-connectivity"@;
    assert(is_word("#"@));
    assert(is_word("RAHN"@));
    assert(is_word("constitution"@));
    assert(is_word(kr));
    assert(is_word(kp));
    assert forall|i: int| 0 <= i < req.len() implies is_word((#[trigger] req[i]).0) && is_word(req[i].1) by {
        lemma_id_is_word(req[i].0);
        lemma_id_is_word(req[i].1);
    }
    assert forall|i: int| 0 <= i < proh.len() implies is_word((#[trigger] proh[i]).0) && is_word(proh[i].1) by {
        lemma_id_is_word(proh[i].0);
        lemma_id_is_word(proh[i].1);
    }
    let header = "# RAHN constitution\n"@;
    assert(header =~= "#"@ + " "@ + "RAHN"@ + " "@ + "constitution"@ + "\n"@);
    let t = constitution_text(req, proh);
    let st0 = (none, Seq::<Seq<char>>::empty(), e);
    let hw = seq!["#"@, "RAHN"@, "constitution"@];
    lemma_scan_line(none, "#"@, "RAHN"@, "constitution"@);
    let l1 = none.push(hw);
    lemma_scan_req_lines(l1, kr, req);
    let l2 = l1 + req_words(kr, req);
    lemma_scan_req_lines(l2, kp, proh);
    let l3 = l2 + req_words(kp, proh);
    lemma_scan_from_append(st0, header, req_lines(kr, req));
    lemma_scan_from_append(st0, header + req_lines(kr, req), req_lines(kp, proh));
    assert(t == header + req_lines(kr, req) + req_lines(kp, proh));
    lemma_scan_is_from(t);
    assert(scan(t) == (l3, Seq::<Seq<char>>::empty(), e));
    let lw = line_words(t);
    assert(lw == l3.push(Seq::<Seq<char>>::empty()));
    // the header is a comment line
    assert(l1.drop_last() =~= none);
    assert(parse_lines(none) == (true, Seq::<(Seq<char>, Seq<char>)>::empty(), Seq::<(Seq<char>, Seq<char>)>::empty(), 0nat, e));
    assert(hw[0][0] == '#');
    assert(skipped(hw));
    assert(parse_lines(l1) == parse_lines(none));
    lemma_parse_req_lines(l1, kr, req, true);
    assert(Seq::<(Seq<char>, Seq<char>)>::empty() + req =~= req);
    lemma_parse_req_lines(l2, kp, proh, false);
    assert(Seq::<(Seq<char>, Seq<char>)>::empty() + proh =~= proh);
    // the empty last line is skipped
    assert(lw.drop_last() =~= l3);
    assert(skipped(lw.last()));
}

} // verus!
