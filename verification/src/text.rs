//! The structured configuration text format: a JSON-like grammar that
//! tolerates `//` comments and unquoted keys. The grammar is specified
//! by recursive spec functions over character sequences; the executable
//! parser and serializer are proved against them.

use vstd::prelude::*;
use vstd::string::StrSliceExecFns;
use vstd::string::StringExecFns;
use crate::chars::{
    is_ws_char, is_digit_char, digit_val, digit_char, is_plain_char, is_ident_start,
    is_ident_char, ws_char, digit, plain_char, ident_start, ident_char, digit_str,
};
use crate::schema::{ValueModel, ConfigValue, entries_view};

verus! {

// ---------------------------------------------------------------------
// The grammar, as spec functions. Each takes the text and a position and
// yields the parsed piece with the position after it, or `None`.
// ---------------------------------------------------------------------

/// The position after whitespace and `//` line comments.
pub open spec fn skip_ws(s: Seq<char>, i: int, in_comment: bool) -> int
    decreases s.len() - i,
{
    if i < 0 || i >= s.len() {
        i
    } else if in_comment {
        if s[i] == '\n' { skip_ws(s, i + 1, false) } else { skip_ws(s, i + 1, true) }
    } else if is_ws_char(s[i]) {
        skip_ws(s, i + 1, false)
    } else if s[i] == '/' && i + 1 < s.len() && s[i + 1] == '/' {
        skip_ws(s, i + 2, true)
    } else {
        i
    }
}

/// The body of a quoted string, read from the character after the opening
/// quote: the contents and the position after the closing quote.
pub open spec fn str_body(s: Seq<char>, i: int) -> Option<(Seq<char>, int)>
    decreases s.len() - i,
{
    if i < 0 || i >= s.len() {
        None
    } else if s[i] == '"' {
        Some((Seq::empty(), i + 1))
    } else if !is_plain_char(s[i]) {
        None
    } else {
        match str_body(s, i + 1) {
            Some(p) => Some((seq![s[i]] + p.0, p.1)),
            None => None,
        }
    }
}

/// The end of a run of decimal digits.
pub open spec fn digit_end(s: Seq<char>, i: int) -> int
    decreases s.len() - i,
{
    if 0 <= i && i < s.len() && is_digit_char(s[i]) { digit_end(s, i + 1) } else { i }
}

/// The end of a run of unquoted-key characters.
pub open spec fn ident_end(s: Seq<char>, i: int) -> int
    decreases s.len() - i,
{
    if 0 <= i && i < s.len() && is_ident_char(s[i]) { ident_end(s, i + 1) } else { i }
}

/// The value of a digit sequence read in base ten.
pub open spec fn digits_val(ds: Seq<char>) -> int
    decreases ds.len(),
{
    if ds.len() == 0 { 0 } else { digits_val(ds.drop_last()) * 10 + digit_val(ds.last()) }
}

/// The literal `lit` occurs in `s` at position `i`.
pub open spec fn lit_at(s: Seq<char>, i: int, lit: Seq<char>) -> bool {
    0 <= i && i + lit.len() <= s.len()
        && forall|k: int| 0 <= k < lit.len() ==> s[i + k] == #[trigger] lit[k]
}

/// A key: quoted text, or an unquoted dotted identifier.
pub open spec fn parse_key(s: Seq<char>, i: int) -> Option<(Seq<char>, int)> {
    if 0 <= i && i < s.len() && s[i] == '"' {
        str_body(s, i + 1)
    } else if 0 <= i && i < s.len() && is_ident_start(s[i]) {
        let e = ident_end(s, i);
        Some((s.subrange(i, e), e))
    } else {
        None
    }
}

/// A value: a quoted string, `true`, `false`, or a decimal integer with
/// an optional sign, within the 64-bit signed range.
pub open spec fn parse_value(s: Seq<char>, i: int) -> Option<(ValueModel, int)> {
    if !(0 <= i && i < s.len()) {
        None
    } else if s[i] == '"' {
        match str_body(s, i + 1) {
            Some(p) => Some((ValueModel::Str(p.0), p.1)),
            None => None,
        }
    } else if lit_at(s, i, "true"@) {
        Some((ValueModel::Bool(true), i + "true"@.len()))
    } else if lit_at(s, i, "false"@) {
        Some((ValueModel::Bool(false), i + "false"@.len()))
    } else if s[i] == '-' || is_digit_char(s[i]) {
        let neg = s[i] == '-';
        let d0 = if neg { i + 1 } else { i };
        let e = digit_end(s, d0);
        if e == d0 {
            None
        } else {
            let v = digits_val(s.subrange(d0, e));
            if v > i64::MAX as int {
                None
            } else {
                Some((ValueModel::Int(if neg { -v } else { v }), e))
            }
        }
    } else {
        None
    }
}

/// One `key : value` entry, with surrounding whitespace.
pub open spec fn parse_entry(s: Seq<char>, i: int) -> Option<((Seq<char>, ValueModel), int)> {
    let j = skip_ws(s, i, false);
    match parse_key(s, j) {
        Some(kp) => {
            let j2 = skip_ws(s, kp.1, false);
            if j2 < s.len() && s[j2] == ':' {
                let j3 = skip_ws(s, j2 + 1, false);
                match parse_value(s, j3) {
                    Some(vp) => Some(((kp.0, vp.0), vp.1)),
                    None => None,
                }
            } else {
                None
            }
        }
        None => None,
    }
}

/// A non-empty, comma-separated entry list; the returned position is
/// after the whitespace following the last entry.
pub open spec fn parse_entries(s: Seq<char>, i: int) -> Option<(Seq<(Seq<char>, ValueModel)>, int)>
    decreases s.len() - i,
    via parse_entries_dec
{
    match parse_entry(s, i) {
        Some(ep) => {
            let j2 = skip_ws(s, ep.1, false);
            if j2 < s.len() && s[j2] == ',' {
                match parse_entries(s, j2 + 1) {
                    Some(rp) => Some((seq![ep.0] + rp.0, rp.1)),
                    None => None,
                }
            } else {
                Some((seq![ep.0], j2))
            }
        }
        None => None,
    }
}

#[via_fn]
proof fn parse_entries_dec(s: Seq<char>, i: int) {
    lemma_parse_entry_bounds(s, i);
    match parse_entry(s, i) {
        Some(ep) => {
            lemma_skip_ws_bounds(s, ep.1, false);
        }
        None => {}
    }
}

/// A whole document: a braced entry list with nothing but whitespace
/// around it.
pub open spec fn parse_doc(s: Seq<char>) -> Option<Seq<(Seq<char>, ValueModel)>> {
    let i = skip_ws(s, 0, false);
    if i < s.len() && s[i] == '{' {
        let j = skip_ws(s, i + 1, false);
        if j < s.len() && s[j] == '}' {
            if skip_ws(s, j + 1, false) == s.len() { Some(Seq::empty()) } else { None }
        } else {
            match parse_entries(s, i + 1) {
                Some(rp) => {
                    if rp.1 < s.len() && s[rp.1] == '}' && skip_ws(s, rp.1 + 1, false) == s.len() {
                        Some(rp.0)
                    } else {
                        None
                    }
                }
                None => None,
            }
        }
    } else {
        None
    }
}

/// A single value standing alone in a text, as accepted by the one-key
/// insertion path.
pub open spec fn parse_value_text(s: Seq<char>) -> Option<ValueModel> {
    let i = skip_ws(s, 0, false);
    match parse_value(s, i) {
        Some(vp) => if skip_ws(s, vp.1, false) == s.len() { Some(vp.0) } else { None },
        None => None,
    }
}

// ---------------------------------------------------------------------
// The canonical serialized form.
// ---------------------------------------------------------------------

/// The decimal digits of a non-negative integer.
pub open spec fn dec_str(n: int) -> Seq<char>
    decreases n,
{
    if n < 10 { seq![digit_char(n)] } else { dec_str(n / 10) + seq![digit_char(n % 10)] }
}

pub open spec fn quote_str(t: Seq<char>) -> Seq<char> {
    seq!['"'] + t + seq!['"']
}

pub open spec fn ser_val(v: ValueModel) -> Seq<char> {
    match v {
        ValueModel::Bool(b) => if b { "true"@ } else { "false"@ },
        ValueModel::Int(n) => if n < 0 { seq!['-'] + dec_str(-n) } else { dec_str(n) },
        ValueModel::Str(t) => quote_str(t),
    }
}

pub open spec fn ser_entry(k: Seq<char>, v: ValueModel) -> Seq<char> {
    quote_str(k) + seq![':'] + ser_val(v)
}

pub open spec fn ser_entries(es: Seq<(Seq<char>, ValueModel)>) -> Seq<char>
    decreases es.len(),
{
    if es.len() == 0 {
        Seq::empty()
    } else if es.len() == 1 {
        ser_entry(es[0].0, es[0].1)
    } else {
        ser_entry(es[0].0, es[0].1) + seq![','] + ser_entries(es.drop_first())
    }
}

pub open spec fn ser_doc(es: Seq<(Seq<char>, ValueModel)>) -> Seq<char> {
    seq!['{'] + ser_entries(es) + seq!['}']
}

/// Appending one entry extends the serialized list by a comma and the
/// entry, or starts it.
pub proof fn lemma_ser_entries_snoc(es: Seq<(Seq<char>, ValueModel)>, e: (Seq<char>, ValueModel))
    ensures
        ser_entries(es.push(e)) == if es.len() == 0 {
            ser_entry(e.0, e.1)
        } else {
            ser_entries(es) + seq![','] + ser_entry(e.0, e.1)
        },
    decreases es.len(),
{
    let t = es.push(e);
    if es.len() == 0 {
        assert(t.len() == 1);
        assert(t[0] == e);
    } else {
        lemma_ser_entries_snoc(es.drop_first(), e);
        assert(t.drop_first() =~= es.drop_first().push(e));
        assert(t[0] == es[0]);
        if es.len() == 1 {
            assert(ser_entries(t) =~= ser_entries(es) + seq![','] + ser_entry(e.0, e.1));
        } else {
            assert(ser_entries(t) =~= ser_entries(es) + seq![','] + ser_entry(e.0, e.1));
        }
    }
}

// ---------------------------------------------------------------------
// Bounds of the grammar functions.
// ---------------------------------------------------------------------

pub proof fn lemma_skip_ws_bounds(s: Seq<char>, i: int, in_comment: bool)
    requires
        0 <= i <= s.len(),
    ensures
        i <= skip_ws(s, i, in_comment) <= s.len(),
    decreases s.len() - i,
{
    if i < s.len() {
        if in_comment {
            lemma_skip_ws_bounds(s, i + 1, s[i] != '\n');
        } else if is_ws_char(s[i]) {
            lemma_skip_ws_bounds(s, i + 1, false);
        } else if s[i] == '/' && i + 1 < s.len() && s[i + 1] == '/' {
            lemma_skip_ws_bounds(s, i + 2, true);
        }
    }
}

pub proof fn lemma_str_body_bounds(s: Seq<char>, i: int)
    ensures
        str_body(s, i) matches Some(p) ==> 0 <= i && i + 1 <= p.1 <= s.len(),
    decreases s.len() - i,
{
    if 0 <= i && i < s.len() {
        if s[i] == '"' {
        } else if is_plain_char(s[i]) {
            lemma_str_body_bounds(s, i + 1);
        }
    }
}

pub proof fn lemma_digit_end_props(s: Seq<char>, i: int)
    requires
        0 <= i <= s.len(),
    ensures
        i <= digit_end(s, i) <= s.len(),
        forall|k: int| i <= k < digit_end(s, i) ==> is_digit_char(s[k]),
        digit_end(s, i) < s.len() ==> !is_digit_char(s[digit_end(s, i)]),
    decreases s.len() - i,
{
    if i < s.len() && is_digit_char(s[i]) {
        lemma_digit_end_props(s, i + 1);
    }
}

pub proof fn lemma_ident_end_props(s: Seq<char>, i: int)
    requires
        0 <= i <= s.len(),
    ensures
        i <= ident_end(s, i) <= s.len(),
        forall|k: int| i <= k < ident_end(s, i) ==> is_ident_char(s[k]),
        ident_end(s, i) < s.len() ==> !is_ident_char(s[ident_end(s, i)]),
    decreases s.len() - i,
{
    if i < s.len() && is_ident_char(s[i]) {
        lemma_ident_end_props(s, i + 1);
    }
}

pub proof fn lemma_parse_key_bounds(s: Seq<char>, i: int)
    ensures
        parse_key(s, i) matches Some(p) ==> 0 <= i && i < p.1 <= s.len(),
{
    if 0 <= i && i < s.len() && s[i] == '"' {
        lemma_str_body_bounds(s, i + 1);
    } else if 0 <= i && i < s.len() && is_ident_start(s[i]) {
        lemma_ident_end_props(s, i + 1);
        assert(ident_end(s, i) == ident_end(s, i + 1));
    }
}

pub proof fn lemma_parse_value_bounds(s: Seq<char>, i: int)
    ensures
        parse_value(s, i) matches Some(p) ==> 0 <= i && i < p.1 <= s.len(),
{
    reveal_strlit("true");
    reveal_strlit("false");
    if 0 <= i && i < s.len() {
        if s[i] == '"' {
            lemma_str_body_bounds(s, i + 1);
        } else {
            let neg = s[i] == '-';
            let d0 = if neg { i + 1 } else { i };
            if i + 1 <= s.len() {
                lemma_digit_end_props(s, d0);
            }
        }
    }
}

pub proof fn lemma_parse_entry_bounds(s: Seq<char>, i: int)
    ensures
        parse_entry(s, i) matches Some(p) ==> i < p.1 <= s.len() && 0 <= p.1,
{
    let j = skip_ws(s, i, false);
    if parse_entry(s, i) is Some {
        lemma_parse_key_bounds(s, j);
        if 0 <= i && i <= s.len() {
            lemma_skip_ws_bounds(s, i, false);
        }
        match parse_key(s, j) {
            Some(kp) => {
                lemma_skip_ws_bounds(s, kp.1, false);
                let j2 = skip_ws(s, kp.1, false);
                if j2 < s.len() && s[j2] == ':' {
                    lemma_skip_ws_bounds(s, j2 + 1, false);
                    let j3 = skip_ws(s, j2 + 1, false);
                    lemma_parse_value_bounds(s, j3);
                }
            }
            None => {}
        }
    }
}

// ---------------------------------------------------------------------
// The executable parser, proved equal to the grammar.
// ---------------------------------------------------------------------

pub fn skip_ws_x(s: &str, i: usize, len: usize, in_comment: bool) -> (r: usize)
    requires
        len == s@.len(),
        i <= len,
    ensures
        r as int == skip_ws(s@, i as int, in_comment),
        i <= r <= len,
    decreases len - i,
{
    if i >= len {
        return i;
    }
    let c = s.get_char(i);
    if in_comment {
        if c == '\n' {
            skip_ws_x(s, i + 1, len, false)
        } else {
            skip_ws_x(s, i + 1, len, true)
        }
    } else if ws_char(c) {
        skip_ws_x(s, i + 1, len, false)
    } else if c == '/' && i + 1 < len && s.get_char(i + 1) == '/' {
        skip_ws_x(s, i + 2, len, true)
    } else {
        i
    }
}

/// How `str_body` reads a scanned stretch of content characters: the
/// closing quote yields the contents; a bad character or the end of the
/// text yields nothing.
pub proof fn lemma_str_body_scan(s: Seq<char>, i: int, q: int)
    requires
        0 <= i <= q <= s.len(),
        forall|k: int| i <= k < q ==> is_plain_char(#[trigger] s[k]) && s[k] != '"',
    ensures
        q == s.len() ==> str_body(s, i) is None,
        q < s.len() && s[q] == '"' ==> str_body(s, i) == Some((s.subrange(i, q), q + 1)),
        q < s.len() && s[q] != '"' && !is_plain_char(s[q]) ==> str_body(s, i) is None,
    decreases q - i,
{
    if i == q {
        if q < s.len() && s[q] == '"' {
            assert(s.subrange(i, q) =~= Seq::empty());
        }
    } else {
        lemma_str_body_scan(s, i + 1, q);
        if q < s.len() && s[q] == '"' {
            assert(seq![s[i]] + s.subrange(i + 1, q) =~= s.subrange(i, q));
        }
    }
}

pub fn str_body_x(s: &str, i: usize, len: usize) -> (r: Option<(String, usize)>)
    requires
        len == s@.len(),
        i <= len,
    ensures
        match r {
            Some(p) => str_body(s@, i as int) == Some((p.0@, p.1 as int)) && i < p.1 <= len,
            None => str_body(s@, i as int) is None,
        },
{
    let mut q = i;
    while q < len
        invariant
            len == s@.len(),
            i <= q <= len,
            forall|k: int| i <= k < q ==> is_plain_char(#[trigger] s@[k]) && s@[k] != '"',
        decreases len - q,
    {
        let c = s.get_char(q);
        if c == '"' {
            let content = s.substring_char(i, q);
            proof {
                lemma_str_body_scan(s@, i as int, q as int);
            }
            return Some((String::from_str(content), q + 1));
        }
        if !plain_char(c) {
            proof {
                lemma_str_body_scan(s@, i as int, q as int);
            }
            return None;
        }
        q += 1;
    }
    proof {
        lemma_str_body_scan(s@, i as int, len as int);
    }
    None
}

pub fn ident_end_x(s: &str, i: usize, len: usize) -> (r: usize)
    requires
        len == s@.len(),
        i <= len,
    ensures
        r as int == ident_end(s@, i as int),
        i <= r <= len,
    decreases len - i,
{
    if i < len && ident_char(s.get_char(i)) {
        ident_end_x(s, i + 1, len)
    } else {
        i
    }
}

pub fn parse_key_x(s: &str, i: usize, len: usize) -> (r: Option<(String, usize)>)
    requires
        len == s@.len(),
        i <= len,
    ensures
        match r {
            Some(p) => parse_key(s@, i as int) == Some((p.0@, p.1 as int)) && i < p.1 <= len,
            None => parse_key(s@, i as int) is None,
        },
{
    if i >= len {
        return None;
    }
    let c = s.get_char(i);
    if c == '"' {
        match str_body_x(s, i + 1, len) {
            Some((k, j)) => Some((k, j)),
            None => None,
        }
    } else if ident_start(c) {
        let e = ident_end_x(s, i + 1, len);
        proof {
            assert(ident_end(s@, i as int) == ident_end(s@, i as int + 1));
        }
        let ks = s.substring_char(i, e);
        Some((String::from_str(ks), e))
    } else {
        None
    }
}

/// Where a digit run ends, seen from a scan.
pub proof fn lemma_digit_end_is(s: Seq<char>, i: int, q: int)
    requires
        0 <= i <= q <= s.len(),
        forall|k: int| i <= k < q ==> is_digit_char(#[trigger] s[k]),
        q == s.len() || !is_digit_char(s[q]),
    ensures
        digit_end(s, i) == q,
    decreases q - i,
{
    if i < q {
        lemma_digit_end_is(s, i + 1, q);
    }
}

pub fn parse_value_x(s: &str, i: usize, len: usize) -> (r: Option<(ConfigValue, usize)>)
    requires
        len == s@.len(),
        i <= len,
    ensures
        match r {
            Some(p) => parse_value(s@, i as int) == Some((p.0@, p.1 as int)) && i < p.1 <= len,
            None => parse_value(s@, i as int) is None,
        },
{
    if i >= len {
        return None;
    }
    let c = s.get_char(i);
    if c == '"' {
        match str_body_x(s, i + 1, len) {
            Some((t, j)) => Some((ConfigValue::Str(t), j)),
            None => None,
        }
    } else if c == 't' {
        if len - i >= 4 && s.get_char(i + 1) == 'r' && s.get_char(i + 2) == 'u'
            && s.get_char(i + 3) == 'e' {
            proof {
                reveal_strlit("true");
                assert(lit_at(s@, i as int, "true"@)) by {
                    assert forall|k: int| 0 <= k < "true"@.len() implies
                        s@[i as int + k] == #[trigger] "true"@[k] by {
                        if k == 0 {
                        } else if k == 1 {
                        } else if k == 2 {
                        } else {
                            assert(k == 3);
                        }
                    }
                }
            }
            Some((ConfigValue::Bool(true), i + 4))
        } else {
            proof {
                reveal_strlit("true");
                reveal_strlit("false");
                assert(!lit_at(s@, i as int, "true"@)) by {
                    if lit_at(s@, i as int, "true"@) {
                        assert(s@[i as int + 1] == "true"@[1]);
                        assert(s@[i as int + 2] == "true"@[2]);
                        assert(s@[i as int + 3] == "true"@[3]);
                    }
                }
                assert(!lit_at(s@, i as int, "false"@)) by {
                    if lit_at(s@, i as int, "false"@) {
                        assert(s@[i as int + 0] == "false"@[0]);
                    }
                }
            }
            None
        }
    } else if c == 'f' {
        if len - i >= 5 && s.get_char(i + 1) == 'a' && s.get_char(i + 2) == 'l'
            && s.get_char(i + 3) == 's' && s.get_char(i + 4) == 'e' {
            proof {
                reveal_strlit("true");
                reveal_strlit("false");
                assert(!lit_at(s@, i as int, "true"@)) by {
                    if lit_at(s@, i as int, "true"@) {
                        assert(s@[i as int + 0] == "true"@[0]);
                    }
                }
                assert(lit_at(s@, i as int, "false"@)) by {
                    assert forall|k: int| 0 <= k < "false"@.len() implies
                        s@[i as int + k] == #[trigger] "false"@[k] by {
                        if k == 0 {
                        } else if k == 1 {
                        } else if k == 2 {
                        } else if k == 3 {
                        } else {
                            assert(k == 4);
                        }
                    }
                }
            }
            Some((ConfigValue::Bool(false), i + 5))
        } else {
            proof {
                reveal_strlit("true");
                reveal_strlit("false");
                assert(!lit_at(s@, i as int, "true"@)) by {
                    if lit_at(s@, i as int, "true"@) {
                        assert(s@[i as int + 0] == "true"@[0]);
                    }
                }
                assert(!lit_at(s@, i as int, "false"@)) by {
                    if lit_at(s@, i as int, "false"@) {
                        assert(s@[i as int + 1] == "false"@[1]);
                        assert(s@[i as int + 2] == "false"@[2]);
                        assert(s@[i as int + 3] == "false"@[3]);
                        assert(s@[i as int + 4] == "false"@[4]);
                    }
                }
            }
            None
        }
    } else if c == '-' || digit(c) {
        proof {
            reveal_strlit("true");
            reveal_strlit("false");
            assert(!lit_at(s@, i as int, "true"@)) by {
                if lit_at(s@, i as int, "true"@) {
                    assert(s@[i as int + 0] == "true"@[0]);
                }
            }
            assert(!lit_at(s@, i as int, "false"@)) by {
                if lit_at(s@, i as int, "false"@) {
                    assert(s@[i as int + 0] == "false"@[0]);
                }
            }
        }
        let neg = c == '-';
        let d0 = if neg { i + 1 } else { i };
        let mut q = d0;
        let mut acc: u64 = 0;
        let mut over = false;
        while q < len && digit(s.get_char(q))
            invariant
                len == s@.len(),
                d0 <= q <= len,
                forall|k: int| d0 <= k < q ==> is_digit_char(#[trigger] s@[k]),
                !over ==> acc as int == digits_val(s@.subrange(d0 as int, q as int))
                    && acc <= i64::MAX as u64,
                over ==> digits_val(s@.subrange(d0 as int, q as int)) > i64::MAX as int,
            decreases len - q,
        {
            let ch = s.get_char(q);
            let d: u64 = (ch as u32 as u64) - 48;
            proof {
                let pre = s@.subrange(d0 as int, q as int);
                let post = s@.subrange(d0 as int, q as int + 1);
                assert(post.drop_last() =~= pre);
                assert(post.last() == s@[q as int]);
                assert(digits_val(post) == digits_val(pre) * 10 + digit_val(s@[q as int]));
                assert(d == digit_val(s@[q as int]));
            }
            if !over {
                if acc <= (9_223_372_036_854_775_807u64 - d) / 10 {
                    proof {
                        assert(acc * 10 + d <= i64::MAX as u64) by {
                            let m: int = i64::MAX as int;
                            assert(10 * ((m - d) / 10) + (m - d) % 10 == m - d);
                            assert(acc as int * 10 <= 10 * ((m - d) / 10));
                        }
                    }
                    acc = acc * 10 + d;
                } else {
                    proof {
                        assert(acc as int * 10 + d > i64::MAX as int) by {
                            let m: int = i64::MAX as int;
                            assert(10 * ((m - d) / 10) + (m - d) % 10 == m - d);
                            assert(acc as int >= (m - d) / 10 + 1);
                            assert(acc as int * 10 >= 10 * ((m - d) / 10) + 10);
                        }
                    }
                    over = true;
                }
            } else {
                proof {
                    let pre = s@.subrange(d0 as int, q as int);
                    assert(digits_val(pre) * 10 >= digits_val(pre));
                }
            }
            q += 1;
        }
        proof {
            lemma_digit_end_is(s@, d0 as int, q as int);
        }
        if q == d0 {
            return None;
        }
        if over {
            return None;
        }
        let m: i64 = acc as i64;
        let val: i64 = if neg { -m } else { m };
        Some((ConfigValue::Int(val), q))
    } else {
        proof {
            reveal_strlit("true");
            reveal_strlit("false");
            assert(!lit_at(s@, i as int, "true"@)) by {
                if lit_at(s@, i as int, "true"@) {
                    assert(s@[i as int + 0] == "true"@[0]);
                }
            }
            assert(!lit_at(s@, i as int, "false"@)) by {
                if lit_at(s@, i as int, "false"@) {
                    assert(s@[i as int + 0] == "false"@[0]);
                }
            }
        }
        None
    }
}

pub fn parse_entry_x(s: &str, i: usize, len: usize) -> (r: Option<(String, ConfigValue, usize)>)
    requires
        len == s@.len(),
        i <= len,
    ensures
        match r {
            Some(p) => parse_entry(s@, i as int) == Some(((p.0@, p.1@), p.2 as int))
                && i < p.2 <= len,
            None => parse_entry(s@, i as int) is None,
        },
{
    let j = skip_ws_x(s, i, len, false);
    match parse_key_x(s, j, len) {
        None => None,
        Some((k, jk)) => {
            let j2 = skip_ws_x(s, jk, len, false);
            if j2 < len && s.get_char(j2) == ':' {
                let j3 = skip_ws_x(s, j2 + 1, len, false);
                match parse_value_x(s, j3, len) {
                    None => None,
                    Some((v, j4)) => Some((k, v, j4)),
                }
            } else {
                None
            }
        }
    }
}

pub fn parse_entries_x(s: &str, i: usize, len: usize) -> (r: Option<(Vec<(String, ConfigValue)>, usize)>)
    requires
        len == s@.len(),
        i <= len,
    ensures
        match r {
            Some(p) => parse_entries(s@, i as int) == Some((entries_view(p.0@), p.1 as int))
                && i < p.1 <= len,
            None => parse_entries(s@, i as int) is None,
        },
    decreases len - i,
{
    match parse_entry_x(s, i, len) {
        None => None,
        Some((k, v, j)) => {
            let j2 = skip_ws_x(s, j, len, false);
            if j2 < len && s.get_char(j2) == ',' {
                match parse_entries_x(s, j2 + 1, len) {
                    None => None,
                    Some((mut es, j3)) => {
                        let ghost pre = es@;
                        es.insert(0, (k, v));
                        proof {
                            assert(entries_view(es@) =~= seq![(k@, v@)] + entries_view(pre));
                        }
                        Some((es, j3))
                    }
                }
            } else {
                let mut es: Vec<(String, ConfigValue)> = Vec::new();
                es.push((k, v));
                proof {
                    assert(entries_view(es@) =~= seq![(k@, v@)]);
                }
                Some((es, j2))
            }
        }
    }
}

pub fn parse_doc_x(s: &str) -> (r: Option<Vec<(String, ConfigValue)>>)
    ensures
        match r {
            Some(v) => parse_doc(s@) == Some(entries_view(v@)),
            None => parse_doc(s@) is None,
        },
{
    let len = s.unicode_len();
    let i = skip_ws_x(s, 0, len, false);
    if !(i < len && s.get_char(i) == '{') {
        return None;
    }
    let j = skip_ws_x(s, i + 1, len, false);
    if j < len && s.get_char(j) == '}' {
        if skip_ws_x(s, j + 1, len, false) == len {
            let es: Vec<(String, ConfigValue)> = Vec::new();
            proof {
                assert(entries_view(es@) =~= Seq::<(Seq<char>, ValueModel)>::empty());
            }
            Some(es)
        } else {
            None
        }
    } else {
        match parse_entries_x(s, i + 1, len) {
            None => None,
            Some((es, k)) => {
                if k < len && s.get_char(k) == '}' {
                    if skip_ws_x(s, k + 1, len, false) == len {
                        Some(es)
                    } else {
                        None
                    }
                } else {
                    None
                }
            }
        }
    }
}

pub fn parse_value_text_x(s: &str) -> (r: Option<ConfigValue>)
    ensures
        match r {
            Some(v) => parse_value_text(s@) == Some(v@),
            None => parse_value_text(s@) is None,
        },
{
    let len = s.unicode_len();
    let i = skip_ws_x(s, 0, len, false);
    match parse_value_x(s, i, len) {
        None => None,
        Some((v, j)) => {
            if skip_ws_x(s, j, len, false) == len {
                Some(v)
            } else {
                None
            }
        }
    }
}

// ---------------------------------------------------------------------
// The executable serializer.
// ---------------------------------------------------------------------

/// Appends the decimal digits of `n`.
pub fn write_dec(out: &mut String, n: u64)
    ensures
        final(out)@ == old(out)@ + dec_str(n as int),
    decreases n,
{
    if n < 10 {
        out.append(digit_str(n as u8));
    } else {
        write_dec(out, n / 10);
        let ghost mid = out@;
        out.append(digit_str((n % 10) as u8));
        proof {
            assert(out@ =~= old(out)@ + dec_str(n as int));
        }
    }
}

/// Appends the canonical form of one value.
pub fn write_value(out: &mut String, v: &ConfigValue)
    requires
        match v@ {
            ValueModel::Int(n) => 0 <= n,
            _ => true,
        },
    ensures
        final(out)@ == old(out)@ + ser_val(v@),
{
    match v {
        ConfigValue::Bool(b) => {
            if *b {
                out.append("true");
            } else {
                out.append("false");
            }
        }
        ConfigValue::Int(n) => {
            write_dec(out, *n as u64);
        }
        ConfigValue::Str(t) => {
            out.append("\"");
            out.append(t.as_str());
            out.append("\"");
            proof {
                reveal_strlit("\"");
                assert(out@ =~= old(out)@ + ser_val(v@));
            }
        }
    }
}

/// Appends the canonical form of one entry.
pub fn write_entry(out: &mut String, k: &String, v: &ConfigValue)
    requires
        match v@ {
            ValueModel::Int(n) => 0 <= n,
            _ => true,
        },
    ensures
        final(out)@ == old(out)@ + ser_entry(k@, v@),
{
    out.append("\"");
    out.append(k.as_str());
    out.append("\"");
    out.append(":");
    write_value(out, v);
    proof {
        reveal_strlit("\"");
        reveal_strlit(":");
        assert(out@ =~= old(out)@ + ser_entry(k@, v@));
    }
}

} // verus!
