//! The store format: a pretty-printed JSON array of records, one canonical
//! text per sequence of records.  `save_students` produces that text and
//! `load_students` reads it back, returning an empty sequence on anything
//! that is not a canonical document (lenient startup).  The format itself is
//! defined by the spec functions below; `store_proofs` shows that decoding
//! inverts encoding exactly.

use vstd::prelude::*;

use crate::model::{Student, StudentView};
use crate::strutil::push_char;

verus! {

// ---------------------------------------------------------------------------
// The document's fixed fragments.
// ---------------------------------------------------------------------------

pub open spec fn lit_empty() -> Seq<char> {
    "[]"@
}

pub open spec fn lit_open() -> Seq<char> {
    "[\n"@
}

pub open spec fn lit_close() -> Seq<char> {
    "\n]"@
}

pub open spec fn lit_sep() -> Seq<char> {
    ",\n"@
}

pub open spec fn lit_rec_open() -> Seq<char> {
    "  {\n    \"id\": \""@
}

pub open spec fn lit_name() -> Seq<char> {
    "\",\n    \"name\": \""@
}

pub open spec fn lit_email() -> Seq<char> {
    "\",\n    \"email\": \""@
}

pub open spec fn lit_mobile() -> Seq<char> {
    "\",\n    \"mobile\": \""@
}

pub open spec fn lit_rec_close() -> Seq<char> {
    "\"\n  }"@
}

// ---------------------------------------------------------------------------
// String escaping.  A quote, a backslash and every control character are
// escaped; all other characters stand for themselves.
// ---------------------------------------------------------------------------

/// The lowercase hexadecimal digit for a value below sixteen.
pub open spec fn hex_digit(v: int) -> char {
    if v == 0 {
        '0'
    } else if v == 1 {
        '1'
    } else if v == 2 {
        '2'
    } else if v == 3 {
        '3'
    } else if v == 4 {
        '4'
    } else if v == 5 {
        '5'
    } else if v == 6 {
        '6'
    } else if v == 7 {
        '7'
    } else if v == 8 {
        '8'
    } else if v == 9 {
        '9'
    } else if v == 10 {
        'a'
    } else if v == 11 {
        'b'
    } else if v == 12 {
        'c'
    } else if v == 13 {
        'd'
    } else if v == 14 {
        'e'
    } else {
        'f'
    }
}

/// How a single character appears inside a quoted field.
pub open spec fn esc_char(c: char) -> Seq<char> {
    if c == '"' {
        seq!['\\', '"']
    } else if c == '\\' {
        seq!['\\', '\\']
    } else if (c as u32) < 32 {
        seq!['\\', 'u', '0', '0', hex_digit((c as u32) as int / 16), hex_digit((c as u32) as int % 16)]
    } else {
        seq![c]
    }
}

/// How a whole field appears inside its quotes.
pub open spec fn esc(s: Seq<char>) -> Seq<char>
    decreases s.len(),
{
    if s.len() == 0 {
        Seq::empty()
    } else {
        esc_char(s[0]) + esc(s.skip(1))
    }
}

/// Escaping distributes over concatenation.
pub proof fn lemma_esc_append(a: Seq<char>, b: Seq<char>)
    ensures
        esc(a + b) == esc(a) + esc(b),
    decreases a.len(),
{
    if a.len() == 0 {
        assert(a + b =~= b);
        assert(esc(a) + esc(b) =~= esc(b));
    } else {
        assert((a + b).skip(1) =~= a.skip(1) + b);
        lemma_esc_append(a.skip(1), b);
        assert(esc(a + b) =~= esc(a) + esc(b));
    }
}

/// Escaping one more character appends that character's escape.
pub proof fn lemma_esc_snoc(s: Seq<char>, c: char)
    ensures
        esc(s.push(c)) == esc(s) + esc_char(c),
{
    assert(s.push(c) =~= s + seq![c]);
    lemma_esc_append(s, seq![c]);
    assert(seq![c].skip(1) =~= Seq::<char>::empty());
    assert(esc(Seq::<char>::empty()) =~= Seq::<char>::empty());
    assert(esc(seq![c]) =~= esc_char(c));
}

// ---------------------------------------------------------------------------
// The document for a sequence of records.
// ---------------------------------------------------------------------------

/// One record as an indented JSON object.
pub open spec fn encode_record(r: StudentView) -> Seq<char> {
    lit_rec_open() + esc(r.id) + lit_name() + esc(r.name) + lit_email() + esc(r.email)
        + lit_mobile() + esc(r.mobile) + lit_rec_close()
}

/// The records after the first, each preceded by the separator.
pub open spec fn encode_rest(rs: Seq<StudentView>) -> Seq<char>
    decreases rs.len(),
{
    if rs.len() == 0 {
        Seq::empty()
    } else {
        lit_sep() + encode_record(rs[0]) + encode_rest(rs.skip(1))
    }
}

/// The body of a non-empty document.
pub open spec fn encode_body(rs: Seq<StudentView>) -> Seq<char>
    recommends
        rs.len() > 0,
{
    encode_record(rs[0]) + encode_rest(rs.skip(1))
}

/// The whole document.
pub open spec fn encode_records(rs: Seq<StudentView>) -> Seq<char> {
    if rs.len() == 0 {
        lit_empty()
    } else {
        lit_open() + encode_body(rs) + lit_close()
    }
}

/// One more record extends the rest of the body by a separator and that
/// record.
pub proof fn lemma_encode_rest_snoc(rs: Seq<StudentView>, r: StudentView)
    ensures
        encode_rest(rs.push(r)) == encode_rest(rs) + lit_sep() + encode_record(r),
    decreases rs.len(),
{
    if rs.len() == 0 {
        assert(rs.push(r)[0] == r);
        assert(rs.push(r).skip(1) =~= Seq::<StudentView>::empty());
        assert(encode_rest(Seq::<StudentView>::empty()) =~= Seq::<char>::empty());
        assert(encode_rest(rs.push(r)) =~= encode_rest(rs) + lit_sep() + encode_record(r));
    } else {
        assert(rs.push(r).skip(1) =~= rs.skip(1).push(r));
        lemma_encode_rest_snoc(rs.skip(1), r);
        assert(encode_rest(rs.push(r)) =~= encode_rest(rs) + lit_sep() + encode_record(r));
    }
}

// ---------------------------------------------------------------------------
// The encoder.
// ---------------------------------------------------------------------------

/// The lowercase hexadecimal digit for a value below sixteen.
fn hex_digit_exec(v: u32) -> (c: char)
    requires
        v < 16,
    ensures
        c == hex_digit(v as int),
{
    if v == 0 {
        '0'
    } else if v == 1 {
        '1'
    } else if v == 2 {
        '2'
    } else if v == 3 {
        '3'
    } else if v == 4 {
        '4'
    } else if v == 5 {
        '5'
    } else if v == 6 {
        '6'
    } else if v == 7 {
        '7'
    } else if v == 8 {
        '8'
    } else if v == 9 {
        '9'
    } else if v == 10 {
        'a'
    } else if v == 11 {
        'b'
    } else if v == 12 {
        'c'
    } else if v == 13 {
        'd'
    } else if v == 14 {
        'e'
    } else {
        'f'
    }
}

/// Appends the escaped form of `s` to `out`.
fn append_escaped(out: &mut String, s: &str)
    ensures
        final(out)@ == old(out)@ + esc(s@),
{
    let n = s.unicode_len();
    let mut i: usize = 0;
    while i < n
        invariant
            n == s@.len(),
            0 <= i <= n,
            out@ == old(out)@ + esc(s@.take(i as int)),
        decreases n - i,
    {
        let c = s.get_char(i);
        proof {
            assert(s@.take(i + 1).drop_last() =~= s@.take(i as int));
            assert(s@.take(i + 1) =~= s@.take(i as int).push(c));
            lemma_esc_snoc(s@.take(i as int), c);
        }
        if c == '"' {
            out.append("\\\"");
            proof {
                reveal_strlit("\\\"");
                assert("\\\""@ =~= esc_char(c));
            }
        } else if c == '\\' {
            out.append("\\\\");
            proof {
                reveal_strlit("\\\\");
                assert("\\\\"@ =~= esc_char(c));
            }
        } else if (c as u32) < 32 {
            let v = c as u32;
            out.append("\\u00");
            push_char(out, hex_digit_exec(v / 16));
            push_char(out, hex_digit_exec(v % 16));
            proof {
                reveal_strlit("\\u00");
                assert("\\u00"@.push(hex_digit(v as int / 16)).push(hex_digit(v as int % 16))
                    =~= esc_char(c));
            }
        } else {
            push_char(out, c);
            proof {
                assert(esc_char(c) =~= seq![c]);
            }
        }
        proof {
            assert(out@ =~= old(out)@ + esc(s@.take(i + 1)));
        }
        i = i + 1;
    }
    proof {
        assert(s@.take(n as int) =~= s@);
    }
}

/// Appends the object for one record to `out`.
fn append_record(out: &mut String, s: &Student)
    ensures
        final(out)@ == old(out)@ + encode_record(s@),
{
    out.append("  {\n    \"id\": \"");
    append_escaped(out, s.id.as_str());
    out.append("\",\n    \"name\": \"");
    append_escaped(out, s.name.as_str());
    out.append("\",\n    \"email\": \"");
    append_escaped(out, s.email.as_str());
    out.append("\",\n    \"mobile\": \"");
    append_escaped(out, s.mobile.as_str());
    out.append("\"\n  }");
    proof {
        assert(out@ =~= old(out)@ + encode_record(s@));
    }
}

/// The canonical document for a sequence of records.
///
/// This is the computing half of saving: the caller writes the returned text
/// to the backing file in full.
pub fn save_students(students: &Vec<Student>) -> (out: String)
    ensures
        out@ == encode_records(students.deep_view()),
{
    let ghost rs = students.deep_view();
    if students.len() == 0 {
        let out = String::from_str("[]");
        proof {
            assert(rs.len() == 0);
        }
        return out;
    }
    let mut out = String::new();
    out.append("[\n");
    append_record(&mut out, &students[0]);
    let mut i: usize = 1;
    while i < students.len()
        invariant
            rs == students.deep_view(),
            rs.len() == students.len(),
            1 <= i <= students.len(),
            out@ == lit_open() + encode_record(rs[0]) + encode_rest(rs.subrange(1, i as int)),
        decreases students.len() - i,
    {
        out.append(",\n");
        append_record(&mut out, &students[i]);
        proof {
            assert(rs.subrange(1, i + 1) =~= rs.subrange(1, i as int).push(rs[i as int]));
            lemma_encode_rest_snoc(rs.subrange(1, i as int), rs[i as int]);
            assert(out@ =~= lit_open() + encode_record(rs[0]) + encode_rest(
                rs.subrange(1, i + 1),
            ));
        }
        i = i + 1;
    }
    out.append("\n]");
    proof {
        assert(rs.subrange(1, rs.len() as int) =~= rs.skip(1));
        assert(out@ =~= encode_records(rs));
    }
    out
}

// ---------------------------------------------------------------------------
// The parse functions.  They define which documents decode, and to what:
// exactly the canonical texts produced by the encoder (shown in
// `store_proofs`).
// ---------------------------------------------------------------------------

/// A lowercase hexadecimal digit.
pub open spec fn is_hex_lower(c: char) -> bool {
    ('0' as u32) <= (c as u32) <= ('9' as u32) || ('a' as u32) <= (c as u32) <= ('f' as u32)
}

/// The value of a lowercase hexadecimal digit.
pub open spec fn hex_val(c: char) -> int {
    if ('0' as u32) <= (c as u32) <= ('9' as u32) {
        c as int - '0' as int
    } else {
        c as int - 'a' as int + 10
    }
}

/// The literal `lit` occurs in `s` at position `p`.
pub open spec fn match_at(s: Seq<char>, p: int, lit: Seq<char>) -> bool {
    0 <= p && p + lit.len() <= s.len() && s.subrange(p, p + lit.len()) == lit
}

/// Reads a quoted field's content from position `p` up to the closing quote,
/// unescaping as it goes.  Returns the content (appended to `acc`) and the
/// position of the closing quote.
pub open spec fn parse_string_at(s: Seq<char>, p: int, acc: Seq<char>) -> Option<
    (Seq<char>, int),
>
    decreases s.len() - p,
{
    if p < 0 || p >= s.len() {
        None
    } else if s[p] == '"' {
        Some((acc, p))
    } else if s[p] == '\\' {
        if p + 1 >= s.len() {
            None
        } else if s[p + 1] == '"' {
            parse_string_at(s, p + 2, acc.push('"'))
        } else if s[p + 1] == '\\' {
            parse_string_at(s, p + 2, acc.push('\\'))
        } else if s[p + 1] == 'u' {
            if p + 6 <= s.len() && s[p + 2] == '0' && s[p + 3] == '0' && (s[p + 4] == '0' || s[p
                + 4] == '1') && is_hex_lower(s[p + 5]) {
                parse_string_at(
                    s,
                    p + 6,
                    acc.push(((hex_val(s[p + 4]) * 16 + hex_val(s[p + 5])) as u32) as char),
                )
            } else {
                None
            }
        } else {
            None
        }
    } else if (s[p] as u32) < 32 {
        None
    } else {
        parse_string_at(s, p + 1, acc.push(s[p]))
    }
}

/// Reads one record object starting at position `p`; returns the record and
/// the position just past its closing brace.
pub open spec fn parse_record_at(s: Seq<char>, p: int) -> Option<(StudentView, int)> {
    if !match_at(s, p, lit_rec_open()) {
        None
    } else {
        match parse_string_at(s, p + lit_rec_open().len(), Seq::empty()) {
            None => None,
            Some((id, p1)) => if !match_at(s, p1, lit_name()) {
                None
            } else {
                match parse_string_at(s, p1 + lit_name().len(), Seq::empty()) {
                    None => None,
                    Some((name, p2)) => if !match_at(s, p2, lit_email()) {
                        None
                    } else {
                        match parse_string_at(s, p2 + lit_email().len(), Seq::empty()) {
                            None => None,
                            Some((email, p3)) => if !match_at(s, p3, lit_mobile()) {
                                None
                            } else {
                                match parse_string_at(s, p3 + lit_mobile().len(), Seq::empty()) {
                                    None => None,
                                    Some((mobile, p4)) => if !match_at(s, p4, lit_rec_close()) {
                                        None
                                    } else {
                                        Some(
                                            (
                                                StudentView { id, name, email, mobile },
                                                p4 + lit_rec_close().len(),
                                            ),
                                        )
                                    },
                                }
                            },
                        }
                    },
                }
            },
        }
    }
}

/// The closing quote ends a field no earlier than it began and inside the
/// document.
pub proof fn lemma_parse_string_at_bounds(s: Seq<char>, p: int, acc: Seq<char>)
    requires
        parse_string_at(s, p, acc) is Some,
    ensures
        p <= parse_string_at(s, p, acc).unwrap().1 < s.len(),
    decreases s.len() - p,
{
    if p < 0 || p >= s.len() {
    } else if s[p] == '"' {
    } else if s[p] == '\\' {
        if p + 1 >= s.len() {
        } else if s[p + 1] == '"' {
            lemma_parse_string_at_bounds(s, p + 2, acc.push('"'));
        } else if s[p + 1] == '\\' {
            lemma_parse_string_at_bounds(s, p + 2, acc.push('\\'));
        } else if s[p + 1] == 'u' {
            if p + 6 <= s.len() && s[p + 2] == '0' && s[p + 3] == '0' && (s[p + 4] == '0' || s[p
                + 4] == '1') && is_hex_lower(s[p + 5]) {
                lemma_parse_string_at_bounds(
                    s,
                    p + 6,
                    acc.push(((hex_val(s[p + 4]) * 16 + hex_val(s[p + 5])) as u32) as char),
                );
            }
        }
    } else if (s[p] as u32) < 32 {
    } else {
        lemma_parse_string_at_bounds(s, p + 1, acc.push(s[p]));
    }
}

/// A parsed record object ends strictly past where it began and inside the
/// document.
pub proof fn lemma_parse_record_at_advances(s: Seq<char>, p: int)
    requires
        parse_record_at(s, p) is Some,
    ensures
        p < parse_record_at(s, p).unwrap().1 <= s.len(),
{
    reveal_strlit("  {\n    \"id\": \"");
    reveal_strlit("\",\n    \"name\": \"");
    reveal_strlit("\",\n    \"email\": \"");
    reveal_strlit("\",\n    \"mobile\": \"");
    reveal_strlit("\"\n  }");
    let q0 = p + lit_rec_open().len();
    let (id, p1) = parse_string_at(s, q0, Seq::empty()).unwrap();
    lemma_parse_string_at_bounds(s, q0, Seq::empty());
    let q1 = p1 + lit_name().len();
    let (name, p2) = parse_string_at(s, q1, Seq::empty()).unwrap();
    lemma_parse_string_at_bounds(s, q1, Seq::empty());
    let q2 = p2 + lit_email().len();
    let (email, p3) = parse_string_at(s, q2, Seq::empty()).unwrap();
    lemma_parse_string_at_bounds(s, q2, Seq::empty());
    let q3 = p3 + lit_mobile().len();
    let (mobile, p4) = parse_string_at(s, q3, Seq::empty()).unwrap();
    lemma_parse_string_at_bounds(s, q3, Seq::empty());
}

/// Reads record objects separated by `lit_sep` until the closing bracket,
/// which must end the document.
pub open spec fn parse_records_at(s: Seq<char>, p: int, acc: Seq<StudentView>) -> Option<
    Seq<StudentView>,
>
    decreases s.len() - p,
    when p >= 0
    via parse_records_at_dec
{
    match parse_record_at(s, p) {
        None => None,
        Some((r, p2)) => if match_at(s, p2, lit_sep()) {
            parse_records_at(s, p2 + lit_sep().len(), acc.push(r))
        } else if p2 + lit_close().len() == s.len() && match_at(s, p2, lit_close()) {
            Some(acc.push(r))
        } else {
            None
        },
    }
}

#[via_fn]
proof fn parse_records_at_dec(s: Seq<char>, p: int, acc: Seq<StudentView>) {
    if parse_record_at(s, p) is Some {
        lemma_parse_record_at_advances(s, p);
        reveal_strlit(",\n");
    }
}

/// What a document decodes to, if anything: the empty document, or an
/// opening bracket followed by separated records and the closing bracket.
pub open spec fn parse_students(s: Seq<char>) -> Option<Seq<StudentView>> {
    if s == lit_empty() {
        Some(Seq::empty())
    } else if match_at(s, 0, lit_open()) {
        parse_records_at(s, lit_open().len() as int, Seq::empty())
    } else {
        None
    }
}

// ---------------------------------------------------------------------------
// The decoder.
// ---------------------------------------------------------------------------

/// A lowercase hexadecimal digit.
fn is_hex_lower_exec(c: char) -> (r: bool)
    ensures
        r == is_hex_lower(c),
{
    let u = c as u32;
    (('0' as u32) <= u && u <= ('9' as u32)) || (('a' as u32) <= u && u <= ('f' as u32))
}

/// The value of a lowercase hexadecimal digit.
fn hex_val_exec(c: char) -> (r: u32)
    requires
        is_hex_lower(c),
    ensures
        r as int == hex_val(c),
        r < 16,
{
    let u = c as u32;
    if u >= ('a' as u32) {
        u - ('a' as u32) + 10
    } else {
        u - ('0' as u32)
    }
}

/// Whether `lit` occurs in `s` at position `p`; on success returns the
/// position just past it.
fn expect_lit(s: &str, n: usize, p: usize, lit: &str) -> (r: Option<usize>)
    requires
        n == s@.len(),
        p <= n,
    ensures
        match r {
            Some(q) => match_at(s@, p as int, lit@) && q == p + lit@.len() && q <= n,
            None => !match_at(s@, p as int, lit@),
        },
{
    let m = lit.unicode_len();
    if n - p < m {
        return None;
    }
    let mut j: usize = 0;
    while j < m
        invariant
            n == s@.len(),
            m == lit@.len(),
            p + m <= n,
            0 <= j <= m,
            forall|k: int| 0 <= k < j ==> s@[p + k] == lit@[k],
        decreases m - j,
    {
        if s.get_char(p + j) != lit.get_char(j) {
            proof {
                if match_at(s@, p as int, lit@) {
                    assert(s@.subrange(p as int, p + lit@.len())[j as int] == lit@[j as int]);
                }
            }
            return None;
        }
        j = j + 1;
    }
    proof {
        assert(s@.subrange(p as int, p + m) =~= lit@);
    }
    Some(p + m)
}

/// Reads a quoted field's content, unescaping as it goes; mirrors
/// `parse_string_at`.
fn parse_string_exec(s: &str, n: usize, p: usize, acc: String) -> (r: Option<(String, usize)>)
    requires
        n == s@.len(),
        p <= n,
    ensures
        match r {
            Some((out, q)) => parse_string_at(s@, p as int, acc@) == Some((out@, q as int)) && p
                <= q < n,
            None => parse_string_at(s@, p as int, acc@) is None,
        },
    decreases n - p,
{
    if p >= n {
        return None;
    }
    let c = s.get_char(p);
    if c == '"' {
        return Some((acc, p));
    }
    if c == '\\' {
        if p + 1 >= n {
            return None;
        }
        let e = s.get_char(p + 1);
        if e == '"' {
            let mut acc2 = acc;
            push_char(&mut acc2, '"');
            return parse_string_exec(s, n, p + 2, acc2);
        }
        if e == '\\' {
            let mut acc2 = acc;
            push_char(&mut acc2, '\\');
            return parse_string_exec(s, n, p + 2, acc2);
        }
        if e == 'u' {
            if n - p < 6 {
                return None;
            }
            let d2 = s.get_char(p + 2);
            let d3 = s.get_char(p + 3);
            let d4 = s.get_char(p + 4);
            let d5 = s.get_char(p + 5);
            if d2 != '0' || d3 != '0' {
                return None;
            }
            if !(d4 == '0' || d4 == '1') {
                return None;
            }
            if !is_hex_lower_exec(d5) {
                return None;
            }
            let v: u32 = hex_val_exec(d4) * 16 + hex_val_exec(d5);
            let c2 = (v as u8) as char;
            proof {
                assert(v < 32);
                assert(c2 == ((hex_val(s@[p + 4]) * 16 + hex_val(s@[p + 5])) as u32) as char);
            }
            let mut acc2 = acc;
            push_char(&mut acc2, c2);
            return parse_string_exec(s, n, p + 6, acc2);
        }
        return None;
    }
    if (c as u32) < 32 {
        return None;
    }
    let mut acc2 = acc;
    push_char(&mut acc2, c);
    parse_string_exec(s, n, p + 1, acc2)
}

/// Reads one record object; mirrors `parse_record_at`.
fn parse_record_exec(s: &str, n: usize, p: usize) -> (r: Option<(Student, usize)>)
    requires
        n == s@.len(),
        p <= n,
    ensures
        match r {
            Some((st, q)) => parse_record_at(s@, p as int) == Some((st@, q as int)) && p < q <= n,
            None => parse_record_at(s@, p as int) is None,
        },
{
    let q0 = match expect_lit(s, n, p, "  {\n    \"id\": \"") {
        None => {
            return None;
        },
        Some(q) => q,
    };
    let (id, p1) = match parse_string_exec(s, n, q0, String::new()) {
        None => {
            return None;
        },
        Some(x) => x,
    };
    let q1 = match expect_lit(s, n, p1, "\",\n    \"name\": \"") {
        None => {
            return None;
        },
        Some(q) => q,
    };
    let (name, p2) = match parse_string_exec(s, n, q1, String::new()) {
        None => {
            return None;
        },
        Some(x) => x,
    };
    let q2 = match expect_lit(s, n, p2, "\",\n    \"email\": \"") {
        None => {
            return None;
        },
        Some(q) => q,
    };
    let (email, p3) = match parse_string_exec(s, n, q2, String::new()) {
        None => {
            return None;
        },
        Some(x) => x,
    };
    let q3 = match expect_lit(s, n, p3, "\",\n    \"mobile\": \"") {
        None => {
            return None;
        },
        Some(q) => q,
    };
    let (mobile, p4) = match parse_string_exec(s, n, q3, String::new()) {
        None => {
            return None;
        },
        Some(x) => x,
    };
    let q4 = match expect_lit(s, n, p4, "\"\n  }") {
        None => {
            return None;
        },
        Some(q) => q,
    };
    proof {
        reveal_strlit("\"\n  }");
    }
    Some((Student { id, name, email, mobile }, q4))
}

/// Reads separated record objects up to the closing bracket; mirrors
/// `parse_records_at`.
fn parse_records_exec(s: &str, n: usize, p: usize, acc: Vec<Student>) -> (r: Option<Vec<Student>>)
    requires
        n == s@.len(),
        p <= n,
    ensures
        match r {
            Some(v) => parse_records_at(s@, p as int, acc.deep_view()) == Some(v.deep_view()),
            None => parse_records_at(s@, p as int, acc.deep_view()) is None,
        },
    decreases n - p,
{
    let (st, p2) = match parse_record_exec(s, n, p) {
        None => {
            return None;
        },
        Some(x) => x,
    };
    let ghost accv = acc.deep_view();
    let mut acc2 = acc;
    acc2.push(st);
    proof {
        assert(acc2.deep_view() =~= accv.push(st@));
    }
    if let Some(q) = expect_lit(s, n, p2, ",\n") {
        parse_records_exec(s, n, q, acc2)
    } else {
        match expect_lit(s, n, p2, "\n]") {
            Some(q) => if q == n {
                Some(acc2)
            } else {
                None
            },
            None => None,
        }
    }
}

/// Decodes a document, if it is canonical.
pub fn decode_students(data: &str) -> (r: Option<Vec<Student>>)
    ensures
        match r {
            Some(v) => parse_students(data@) == Some(v.deep_view()),
            None => parse_students(data@) is None,
        },
{
    let n = data.unicode_len();
    if crate::strutil::str_eq(data, "[]") {
        let v: Vec<Student> = Vec::new();
        proof {
            assert(v.deep_view() =~= Seq::<StudentView>::empty());
        }
        return Some(v);
    }
    match expect_lit(data, n, 0, "[\n") {
        None => None,
        Some(q) => {
            let start: Vec<Student> = Vec::new();
            proof {
                assert(start.deep_view() =~= Seq::<StudentView>::empty());
            }
            parse_records_exec(data, n, q, start)
        },
    }
}

/// What a document yields at startup: its records if it is canonical, and
/// nothing otherwise.
pub open spec fn loaded_students(doc: Seq<char>) -> Seq<StudentView> {
    match parse_students(doc) {
        Some(v) => v,
        None => Seq::empty(),
    }
}

/// The records read at startup from the backing file's contents, with `None`
/// standing for a missing file.  A missing or non-canonical document yields
/// the empty sequence; this function never fails.
pub fn load_students(contents: Option<&str>) -> (r: Vec<Student>)
    ensures
        match contents {
            Some(doc) => r.deep_view() == loaded_students(doc@),
            None => r.deep_view() == Seq::<StudentView>::empty(),
        },
{
    match contents {
        None => {
            let v: Vec<Student> = Vec::new();
            proof {
                assert(v.deep_view() =~= Seq::<StudentView>::empty());
            }
            v
        },
        Some(doc) => match decode_students(doc) {
            Some(v) => v,
            None => {
                let v: Vec<Student> = Vec::new();
                proof {
                    assert(v.deep_view() =~= Seq::<StudentView>::empty());
                }
                v
            },
        },
    }
}

} // verus!
