//! Proofs that the store format is exact: decoding inverts encoding, and a
//! document decodes only to the sequence whose encoding it is.

use vstd::prelude::*;

use crate::model::StudentView;
use crate::store::{
    encode_body, encode_record, encode_records, encode_rest, esc, esc_char, hex_digit, hex_val,
    is_hex_lower, lit_close, lit_email, lit_empty, lit_mobile, lit_name, lit_open, lit_rec_close,
    lit_rec_open, lit_sep, loaded_students, match_at, parse_record_at, parse_records_at,
    parse_string_at, parse_students,
};

verus! {

// ---------------------------------------------------------------------------
// Small helpers.
// ---------------------------------------------------------------------------

/// A hexadecimal digit's character encodes its value and nothing else.
proof fn lemma_hex_digit_val(c: char)
    requires
        is_hex_lower(c),
    ensures
        0 <= hex_val(c) < 16,
        hex_digit(hex_val(c)) == c,
        is_hex_lower(hex_digit(hex_val(c))),
{
}

/// The digit of a value below sixteen is a hexadecimal digit of that value.
proof fn lemma_hex_digit_of_val(v: int)
    requires
        0 <= v < 16,
    ensures
        is_hex_lower(hex_digit(v)),
        hex_val(hex_digit(v)) == v,
{
}

/// Splitting an occurrence of a concatenation into its two halves.
proof fn lemma_match_at_split(s: Seq<char>, p: int, a: Seq<char>, b: Seq<char>)
    requires
        match_at(s, p, a + b),
    ensures
        match_at(s, p, a),
        match_at(s, p + a.len(), b),
{
    assert forall|i: int| 0 <= i < a.len() implies s[p + i] == a[i] by {
        assert(s.subrange(p, p + (a + b).len())[i] == (a + b)[i]);
    }
    assert forall|i: int| 0 <= i < b.len() implies s[p + a.len() + i] == b[i] by {
        assert(s.subrange(p, p + (a + b).len())[a.len() + i] == (a + b)[a.len() + i]);
    }
    assert(s.subrange(p, p + a.len()) =~= a);
    assert(s.subrange(p + a.len(), p + a.len() + b.len()) =~= b);
}

/// A range of the document is the concatenation of its two halves.
proof fn lemma_subrange_join(s: Seq<char>, p: int, m: int, q: int)
    requires
        0 <= p <= m <= q <= s.len(),
    ensures
        s.subrange(p, q) == s.subrange(p, m) + s.subrange(m, q),
{
    assert(s.subrange(p, q) =~= s.subrange(p, m) + s.subrange(m, q));
}

// ---------------------------------------------------------------------------
// Field level: reading back an escaped field.
// ---------------------------------------------------------------------------

/// Wherever a field's escaped form sits in the document with a quote right
/// after it, the string reader returns exactly that field and stops at that
/// quote.
proof fn lemma_parse_string_at_of_esc(s: Seq<char>, p: int, acc: Seq<char>, t: Seq<char>)
    requires
        0 <= p,
        p + esc(t).len() < s.len(),
        s.subrange(p, p + esc(t).len()) == esc(t),
        s[p + esc(t).len()] == '"',
    ensures
        parse_string_at(s, p, acc) == Some((acc + t, p + esc(t).len())),
    decreases t.len(),
{
    if t.len() == 0 {
        assert(esc(t).len() == 0);
        assert(s[p] == '"');
        assert(acc + t =~= acc);
    } else {
        let c = t[0];
        let t2 = t.skip(1);
        let e = esc_char(c);
        let k = e.len();
        assert(esc(t) == e + esc(t2));
        assert forall|i: int| 0 <= i < esc(t).len() implies s[p + i] == esc(t)[i] by {
            assert(s.subrange(p, p + esc(t).len())[i] == esc(t)[i]);
        }
        assert(s.subrange(p + k, p + esc(t).len()) =~= esc(t2)) by {
            assert forall|i: int| 0 <= i < esc(t2).len() implies s[p + k + i] == esc(t2)[i] by {
                assert((e + esc(t2))[k + i] == esc(t2)[i]);
            }
        }
        assert(t =~= seq![c] + t2);
        if c == '"' {
            assert(esc(t)[0] == '\\' && esc(t)[1] == '"');
            assert(s[p + 0] == esc(t)[0] && s[p + 1] == esc(t)[1]);
            assert(s[p] == '\\' && s[p + 1] == '"');
            lemma_parse_string_at_of_esc(s, p + 2, acc.push('"'), t2);
            assert(acc.push('"') + t2 =~= acc + t);
        } else if c == '\\' {
            assert(esc(t)[0] == '\\' && esc(t)[1] == '\\');
            assert(s[p + 0] == esc(t)[0] && s[p + 1] == esc(t)[1]);
            assert(s[p] == '\\' && s[p + 1] == '\\');
            lemma_parse_string_at_of_esc(s, p + 2, acc.push('\\'), t2);
            assert(acc.push('\\') + t2 =~= acc + t);
        } else if (c as u32) < 32 {
            let u = (c as u32) as int;
            assert(esc(t)[0] == '\\' && esc(t)[1] == 'u' && esc(t)[2] == '0' && esc(t)[3] == '0'
                && esc(t)[4] == hex_digit(u / 16) && esc(t)[5] == hex_digit(u % 16));
            assert(s[p + 0] == esc(t)[0] && s[p + 1] == esc(t)[1] && s[p + 2] == esc(t)[2] && s[p
                + 3] == esc(t)[3] && s[p + 4] == esc(t)[4] && s[p + 5] == esc(t)[5]);
            assert(s[p] == '\\' && s[p + 1] == 'u' && s[p + 2] == '0' && s[p + 3] == '0');
            assert(s[p + 4] == hex_digit(u / 16));
            assert(s[p + 5] == hex_digit(u % 16));
            assert(0 <= u && u < 32);
            assert(0 <= u / 16 && u / 16 < 2);
            assert(0 <= u % 16 && u % 16 < 16);
            lemma_hex_digit_of_val(u / 16);
            lemma_hex_digit_of_val(u % 16);
            assert(s[p + 4] == '0' || s[p + 4] == '1');
            assert(is_hex_lower(s[p + 5]));
            let v = hex_val(s[p + 4]) * 16 + hex_val(s[p + 5]);
            assert(v == (u / 16) * 16 + (u % 16));
            assert(v == u);
            assert((v as u32) == (c as u32));
            vstd::utf8::char_u32_cast(c, v as u32);
            assert(((v as u32) as char) == c);
            lemma_parse_string_at_of_esc(s, p + 6, acc.push(c), t2);
            assert(acc.push(c) + t2 =~= acc + t);
        } else {
            assert(esc(t)[0] == c);
            assert(s[p + 0] == esc(t)[0]);
            assert(s[p] == c);
            lemma_parse_string_at_of_esc(s, p + 1, acc.push(c), t2);
            assert(acc.push(c) + t2 =~= acc + t);
        }
    }
}

/// Whatever the string reader accepts is the escaped form of what it
/// returns, quote-terminated.
proof fn lemma_parse_string_at_sound(s: Seq<char>, p: int, acc: Seq<char>)
    requires
        0 <= p,
        parse_string_at(s, p, acc) is Some,
    ensures
        ({
            let (c, q) = parse_string_at(s, p, acc).unwrap();
            &&& p <= q < s.len()
            &&& s[q] == '"'
            &&& c.len() >= acc.len()
            &&& c.subrange(0, acc.len() as int) == acc
            &&& s.subrange(p, q) == esc(c.skip(acc.len() as int))
        }),
    decreases s.len() - p,
{
    let (c, q) = parse_string_at(s, p, acc).unwrap();
    if s[p] == '"' {
        assert(c == acc && q == p);
        assert(c.subrange(0, acc.len() as int) =~= acc);
        assert(c.skip(acc.len() as int) =~= Seq::<char>::empty());
        assert(esc(Seq::<char>::empty()) =~= Seq::<char>::empty());
        assert(s.subrange(p, q) =~= Seq::<char>::empty());
    } else if s[p] == '\\' {
        if s[p + 1] == '"' || s[p + 1] == '\\' {
            let ch = if s[p + 1] == '"' {
                '"'
            } else {
                '\\'
            };
            lemma_parse_string_at_sound(s, p + 2, acc.push(ch));
            lemma_sound_step(s, p, acc, ch, 2, seq![s[p], s[p + 1]]);
        } else {
            // the \u00xy escape
            let h1 = s[p + 4];
            let h2 = s[p + 5];
            let v = hex_val(h1) * 16 + hex_val(h2);
            let ch = ((v as u32) as char);
            assert(hex_val(h1) == 0 || hex_val(h1) == 1);
            lemma_hex_digit_val(h2);
            assert(0 <= v && v < 32);
            let w = (ch as u32) as int;
            assert((ch as u32) == (v as u32));
            assert(w == v);
            assert(w / 16 == hex_val(h1) && w % 16 == hex_val(h2)) by {
                assert(0 <= hex_val(h2) && hex_val(h2) < 16);
            }
            assert(hex_digit(w / 16) == h1) by {
                if hex_val(h1) == 0 {
                    assert(h1 == '0');
                } else {
                    assert(h1 == '1');
                }
            }
            assert(hex_digit(w % 16) == h2) by {
                lemma_hex_digit_val(h2);
            }
            assert(esc_char(ch) =~= seq![s[p], s[p + 1], s[p + 2], s[p + 3], s[p + 4], s[p + 5]]);
            lemma_parse_string_at_sound(s, p + 6, acc.push(ch));
            lemma_sound_step(
                s,
                p,
                acc,
                ch,
                6,
                seq![s[p], s[p + 1], s[p + 2], s[p + 3], s[p + 4], s[p + 5]],
            );
        }
    } else {
        assert(esc_char(s[p]) =~= seq![s[p]]);
        lemma_parse_string_at_sound(s, p + 1, acc.push(s[p]));
        lemma_sound_step(s, p, acc, s[p], 1, seq![s[p]]);
    }
}

/// One step of the soundness argument: if the reader consumed `w` (the
/// escape of `ch`, `w.len()` characters long) and the rest of the run is
/// sound, the whole run is sound.
proof fn lemma_sound_step(s: Seq<char>, p: int, acc: Seq<char>, ch: char, k: int, w: Seq<char>)
    requires
        0 <= p,
        p + k <= s.len(),
        k == w.len(),
        w == esc_char(ch),
        forall|i: int| 0 <= i < k ==> s[p + i] == w[i],
        parse_string_at(s, p, acc) == parse_string_at(s, p + k, acc.push(ch)),
        parse_string_at(s, p + k, acc.push(ch)) is Some,
        ({
            let (c, q) = parse_string_at(s, p + k, acc.push(ch)).unwrap();
            &&& p + k <= q < s.len()
            &&& s[q] == '"'
            &&& c.len() >= acc.len() as int + 1
            &&& c.subrange(0, acc.len() as int + 1) == acc.push(ch)
            &&& s.subrange(p + k, q) == esc(c.skip(acc.len() as int + 1))
        }),
    ensures
        ({
            let (c, q) = parse_string_at(s, p, acc).unwrap();
            &&& p <= q < s.len()
            &&& s[q] == '"'
            &&& c.len() >= acc.len()
            &&& c.subrange(0, acc.len() as int) == acc
            &&& s.subrange(p, q) == esc(c.skip(acc.len() as int))
        }),
{
    let (c, q) = parse_string_at(s, p, acc).unwrap();
    assert(c.subrange(0, acc.len() as int) =~= acc) by {
        assert forall|i: int| 0 <= i < acc.len() implies c[i] == acc[i] by {
            assert(c.subrange(0, acc.len() as int + 1)[i] == acc.push(ch)[i]);
        }
    }
    assert(c[acc.len() as int] == ch) by {
        assert(c.subrange(0, acc.len() as int + 1)[acc.len() as int] == acc.push(ch)[acc.len() as int]);
    }
    let rest = c.skip(acc.len() as int);
    assert(rest.len() > 0);
    assert(rest[0] == ch);
    assert(rest.skip(1) =~= c.skip(acc.len() as int + 1));
    assert(esc(rest) == esc_char(ch) + esc(rest.skip(1)));
    assert(s.subrange(p, p + k) =~= w);
    lemma_subrange_join(s, p, p + k, q);
    assert(s.subrange(p, q) =~= esc(rest));
}

// ---------------------------------------------------------------------------
// Record level.
// ---------------------------------------------------------------------------

/// Wherever a record's encoding sits in the document, the record reader
/// returns exactly that record and stops right after it.
proof fn lemma_parse_record_at_of_encode(s: Seq<char>, p: int, r: StudentView)
    requires
        0 <= p,
        match_at(s, p, encode_record(r)),
    ensures
        parse_record_at(s, p) == Some((r, p + encode_record(r).len())),
{
    reveal_strlit("  {\n    \"id\": \"");
    reveal_strlit("\",\n    \"name\": \"");
    reveal_strlit("\",\n    \"email\": \"");
    reveal_strlit("\",\n    \"mobile\": \"");
    reveal_strlit("\"\n  }");
    let l0 = lit_rec_open();
    let e1 = esc(r.id);
    let l1 = lit_name();
    let e2 = esc(r.name);
    let l2 = lit_email();
    let e3 = esc(r.email);
    let l3 = lit_mobile();
    let e4 = esc(r.mobile);
    let l4 = lit_rec_close();
    lemma_match_at_split(s, p, l0 + e1 + l1 + e2 + l2 + e3 + l3 + e4, l4);
    lemma_match_at_split(s, p, l0 + e1 + l1 + e2 + l2 + e3 + l3, e4);
    lemma_match_at_split(s, p, l0 + e1 + l1 + e2 + l2 + e3, l3);
    lemma_match_at_split(s, p, l0 + e1 + l1 + e2 + l2, e3);
    lemma_match_at_split(s, p, l0 + e1 + l1 + e2, l2);
    lemma_match_at_split(s, p, l0 + e1 + l1, e2);
    lemma_match_at_split(s, p, l0 + e1, l1);
    lemma_match_at_split(s, p, l0, e1);
    let o1 = p + l0.len();
    let o2 = o1 + e1.len();
    let o3 = o2 + l1.len();
    let o4 = o3 + e2.len();
    let o5 = o4 + l2.len();
    let o6 = o5 + e3.len();
    let o7 = o6 + l3.len();
    let o8 = o7 + e4.len();
    assert(match_at(s, o1, e1) && match_at(s, o2, l1) && match_at(s, o3, e2) && match_at(
        s,
        o4,
        l2,
    ) && match_at(s, o5, e3) && match_at(s, o6, l3) && match_at(s, o7, e4) && match_at(
        s,
        o8,
        l4,
    ));
    assert(s[o2] == '"') by {
        assert(s.subrange(o2, o2 + l1.len())[0] == l1[0]);
    }
    assert(s[o4] == '"') by {
        assert(s.subrange(o4, o4 + l2.len())[0] == l2[0]);
    }
    assert(s[o6] == '"') by {
        assert(s.subrange(o6, o6 + l3.len())[0] == l3[0]);
    }
    assert(s[o8] == '"') by {
        assert(s.subrange(o8, o8 + l4.len())[0] == l4[0]);
    }
    lemma_parse_string_at_of_esc(s, o1, Seq::empty(), r.id);
    lemma_parse_string_at_of_esc(s, o3, Seq::empty(), r.name);
    lemma_parse_string_at_of_esc(s, o5, Seq::empty(), r.email);
    lemma_parse_string_at_of_esc(s, o7, Seq::empty(), r.mobile);
    assert(Seq::empty() + r.id =~= r.id);
    assert(Seq::empty() + r.name =~= r.name);
    assert(Seq::empty() + r.email =~= r.email);
    assert(Seq::empty() + r.mobile =~= r.mobile);
    assert(StudentView { id: r.id, name: r.name, email: r.email, mobile: r.mobile } =~= r);
    assert(o8 + l4.len() == p + encode_record(r).len());
}

/// Whatever the record reader accepts is the encoding of what it returns.
proof fn lemma_parse_record_at_sound(s: Seq<char>, p: int)
    requires
        0 <= p,
        parse_record_at(s, p) is Some,
    ensures
        ({
            let (r, q) = parse_record_at(s, p).unwrap();
            &&& p < q <= s.len()
            &&& s.subrange(p, q) == encode_record(r)
        }),
{
    reveal_strlit("  {\n    \"id\": \"");
    reveal_strlit("\",\n    \"name\": \"");
    reveal_strlit("\",\n    \"email\": \"");
    reveal_strlit("\",\n    \"mobile\": \"");
    reveal_strlit("\"\n  }");
    let (r, q) = parse_record_at(s, p).unwrap();
    let l0 = lit_rec_open();
    let l1 = lit_name();
    let l2 = lit_email();
    let l3 = lit_mobile();
    let l4 = lit_rec_close();
    let o1 = p + l0.len();
    let (id, p1) = parse_string_at(s, o1, Seq::empty()).unwrap();
    lemma_parse_string_at_sound(s, o1, Seq::empty());
    let o3 = p1 + l1.len();
    let (name, p2) = parse_string_at(s, o3, Seq::empty()).unwrap();
    lemma_parse_string_at_sound(s, o3, Seq::empty());
    let o5 = p2 + l2.len();
    let (email, p3) = parse_string_at(s, o5, Seq::empty()).unwrap();
    lemma_parse_string_at_sound(s, o5, Seq::empty());
    let o7 = p3 + l3.len();
    let (mobile, p4) = parse_string_at(s, o7, Seq::empty()).unwrap();
    lemma_parse_string_at_sound(s, o7, Seq::empty());
    assert(id.skip(0) =~= id);
    assert(name.skip(0) =~= name);
    assert(email.skip(0) =~= email);
    assert(mobile.skip(0) =~= mobile);
    assert(r == StudentView { id, name, email, mobile });
    assert(q == p4 + l4.len());
    assert(s.subrange(p, o1) == l0);
    assert(s.subrange(p1, o3) == l1);
    assert(s.subrange(p2, o5) == l2);
    assert(s.subrange(p3, o7) == l3);
    assert(s.subrange(p4, q) == l4);
    lemma_subrange_join(s, p, o1, p1);
    lemma_subrange_join(s, p, p1, o3);
    lemma_subrange_join(s, p, o3, p2);
    lemma_subrange_join(s, p, p2, o5);
    lemma_subrange_join(s, p, o5, p3);
    lemma_subrange_join(s, p, p3, o7);
    lemma_subrange_join(s, p, o7, p4);
    lemma_subrange_join(s, p, p4, q);
    assert(s.subrange(p, q) =~= encode_record(r));
}

// ---------------------------------------------------------------------------
// List level.
// ---------------------------------------------------------------------------

/// A body of two or more records starts with one record and a separator.
proof fn lemma_encode_body_cons(rs: Seq<StudentView>)
    requires
        rs.len() > 1,
    ensures
        encode_body(rs) == encode_record(rs[0]) + lit_sep() + encode_body(rs.skip(1)),
{
    assert(rs.skip(1).len() > 0);
    assert(encode_rest(rs.skip(1)) == lit_sep() + encode_record(rs.skip(1)[0]) + encode_rest(
        rs.skip(1).skip(1),
    ));
    assert(encode_body(rs) =~= encode_record(rs[0]) + lit_sep() + encode_body(rs.skip(1)));
}

/// Wherever a whole body sits right before the closing bracket at the end of
/// the document, the list reader returns exactly those records.
proof fn lemma_parse_records_at_of_encode(
    s: Seq<char>,
    p: int,
    acc: Seq<StudentView>,
    rs: Seq<StudentView>,
)
    requires
        0 <= p,
        rs.len() > 0,
        p + encode_body(rs).len() + lit_close().len() == s.len(),
        match_at(s, p, encode_body(rs)),
        match_at(s, p + encode_body(rs).len(), lit_close()),
    ensures
        parse_records_at(s, p, acc) == Some(acc + rs),
    decreases rs.len(),
{
    reveal_strlit(",\n");
    reveal_strlit("\n]");
    if rs.len() == 1 {
        assert(rs.skip(1).len() == 0);
        assert(encode_rest(rs.skip(1)) == Seq::<char>::empty());
        assert(encode_body(rs) =~= encode_record(rs[0]));
        lemma_parse_record_at_of_encode(s, p, rs[0]);
        let p2 = p + encode_record(rs[0]).len();
        assert(!match_at(s, p2, lit_sep())) by {
            if match_at(s, p2, lit_sep()) {
                assert(s.subrange(p2, p2 + 2) == lit_sep());
                assert(s.subrange(p2, p2 + 2) == lit_close());
                assert(lit_sep()[0] == lit_close()[0]);
                assert(false);
            }
        }
        assert(p2 + lit_close().len() == s.len());
        assert(match_at(s, p2, lit_close()));
        assert(parse_records_at(s, p, acc) == Some(acc.push(rs[0])));
        assert(acc.push(rs[0]) =~= acc + rs);
    } else {
        lemma_encode_body_cons(rs);
        lemma_match_at_split(s, p, encode_record(rs[0]) + lit_sep(), encode_body(rs.skip(1)));
        lemma_match_at_split(s, p, encode_record(rs[0]), lit_sep());
        lemma_parse_record_at_of_encode(s, p, rs[0]);
        let p2 = p + encode_record(rs[0]).len();
        assert(match_at(s, p2, lit_sep()));
        lemma_parse_records_at_of_encode(s, p2 + lit_sep().len(), acc.push(rs[0]), rs.skip(1));
        assert(acc.push(rs[0]) + rs.skip(1) =~= acc + rs);
    }
}

/// Whatever the list reader accepts is a body followed by the closing
/// bracket, for exactly the records it returns beyond its accumulator.
proof fn lemma_parse_records_at_sound(s: Seq<char>, p: int, acc: Seq<StudentView>)
    requires
        0 <= p,
        parse_records_at(s, p, acc) is Some,
    ensures
        ({
            let res = parse_records_at(s, p, acc).unwrap();
            &&& res.len() > acc.len()
            &&& res.subrange(0, acc.len() as int) == acc
            &&& p <= s.len()
            &&& s.subrange(p, s.len() as int) == encode_body(res.skip(acc.len() as int))
                + lit_close()
        }),
    decreases s.len() - p,
{
    reveal_strlit(",\n");
    reveal_strlit("\n]");
    let res = parse_records_at(s, p, acc).unwrap();
    let (r, p2) = parse_record_at(s, p).unwrap();
    lemma_parse_record_at_sound(s, p);
    if match_at(s, p2, lit_sep()) {
        let p3 = p2 + lit_sep().len();
        lemma_parse_records_at_sound(s, p3, acc.push(r));
        assert(res.subrange(0, acc.len() as int) =~= acc) by {
            assert forall|i: int| 0 <= i < acc.len() implies res[i] == acc[i] by {
                assert(res.subrange(0, acc.len() as int + 1)[i] == acc.push(r)[i]);
            }
        }
        assert(res[acc.len() as int] == r) by {
            assert(res.subrange(0, acc.len() as int + 1)[acc.len() as int] == acc.push(
                r,
            )[acc.len() as int]);
        }
        let rest = res.skip(acc.len() as int);
        assert(rest[0] == r);
        assert(rest.len() > 1);
        assert(rest.skip(1) =~= res.skip(acc.len() as int + 1));
        lemma_subrange_join(s, p2, p3, s.len() as int);
        lemma_subrange_join(s, p, p2, s.len() as int);
        assert(s.subrange(p2, p3) == lit_sep());
        lemma_encode_body_cons(rest);
        assert(s.subrange(p, s.len() as int) =~= encode_body(rest) + lit_close());
    } else {
        assert(res == acc.push(r));
        assert(p2 + lit_close().len() == s.len());
        assert(match_at(s, p2, lit_close()));
        let rest = res.skip(acc.len() as int);
        assert(rest =~= seq![r]);
        assert(seq![r].skip(1) =~= Seq::<StudentView>::empty());
        assert(encode_rest(Seq::<StudentView>::empty()) == Seq::<char>::empty());
        assert(encode_body(seq![r]) =~= encode_record(r));
        lemma_subrange_join(s, p, p2, s.len() as int);
        assert(s.subrange(p2, s.len() as int) == lit_close());
        assert(s.subrange(p, s.len() as int) =~= encode_body(rest) + lit_close());
        assert(res.subrange(0, acc.len() as int) =~= acc);
    }
}

// ---------------------------------------------------------------------------
// Document level: the public laws of the store format.
// ---------------------------------------------------------------------------

/// Round-trip: the document saved for any sequence of records decodes back
/// to exactly that sequence.
pub proof fn lemma_round_trip(rs: Seq<StudentView>)
    ensures
        parse_students(encode_records(rs)) == Some(rs),
{
    reveal_strlit("[]");
    reveal_strlit("[\n");
    reveal_strlit("\n]");
    reveal_strlit("  {\n    \"id\": \"");
    let s = encode_records(rs);
    if rs.len() == 0 {
        assert(s == lit_empty());
        assert(rs =~= Seq::<StudentView>::empty());
    } else {
        assert(encode_body(rs).len() >= lit_rec_open().len());
        assert(s.len() >= 18);
        assert(s != lit_empty());
        assert(match_at(s, 0, s)) by {
            assert(s.subrange(0, s.len() as int) =~= s);
        }
        lemma_match_at_split(s, 0, lit_open() + encode_body(rs), lit_close());
        lemma_match_at_split(s, 0, lit_open(), encode_body(rs));
        lemma_parse_records_at_of_encode(s, lit_open().len() as int, Seq::empty(), rs);
        assert(Seq::empty() + rs =~= rs);
    }
}

/// Persistence visibility: a state saved in full is exactly what a
/// subsequent load — a restart — sees, so every mutation that produced the
/// state is reflected after it.
pub proof fn lemma_saved_state_is_loaded(rs: Seq<StudentView>)
    ensures
        loaded_students(encode_records(rs)) == rs,
{
    lemma_round_trip(rs);
}

/// Exactness: a document that decodes at all is the canonical encoding of
/// what it decodes to; the reader accepts nothing else.
pub proof fn lemma_exact(doc: Seq<char>, rs: Seq<StudentView>)
    requires
        parse_students(doc) == Some(rs),
    ensures
        doc == encode_records(rs),
{
    reveal_strlit("[]");
    reveal_strlit("[\n");
    reveal_strlit("\n]");
    if doc == lit_empty() {
        assert(rs =~= Seq::<StudentView>::empty());
        assert(encode_records(rs) == lit_empty());
    } else {
        assert(match_at(doc, 0, lit_open()));
        assert(parse_records_at(doc, lit_open().len() as int, Seq::empty()) == Some(rs));
        lemma_parse_records_at_sound(doc, lit_open().len() as int, Seq::empty());
        assert(rs.skip(0) =~= rs);
        assert(rs.len() > 0);
        lemma_subrange_join(doc, 0, lit_open().len() as int, doc.len() as int);
        assert(doc.subrange(0, lit_open().len() as int) == lit_open());
        assert(doc.subrange(0, doc.len() as int) =~= doc);
        assert(doc =~= encode_records(rs));
    }
}

} // verus!
