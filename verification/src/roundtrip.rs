//! The round-trip law of the configuration text format: parsing the
//! canonical serialization of any well-formed store yields exactly that
//! store's entries. Together with the contracts of `Config::json` and
//! `Config::from_json5`, this says that `from_json5(json(s))` rebuilds a
//! store with the same keys and values as `s`.

use vstd::prelude::*;
use crate::chars::{is_ws_char, is_digit_char, digit_val, digit_char, is_plain_char, is_plain_text};
use crate::schema::{ValueModel, entry_wf, store_wf, lemma_recognized_key_plain};
use crate::text::{
    skip_ws, str_body, digits_val, lit_at, parse_key, parse_value, parse_entry,
    parse_entries, parse_doc, dec_str, quote_str, ser_val, ser_entry, ser_entries, ser_doc,
    lemma_str_body_scan, lemma_digit_end_is,
};

verus! {

/// A subrange equality yields the characters one by one.
proof fn lemma_subrange_chars(s: Seq<char>, i: int, w: Seq<char>)
    requires
        0 <= i,
        i + w.len() <= s.len(),
        s.subrange(i, i + w.len()) == w,
    ensures
        forall|x: int| 0 <= x < w.len() ==> s[i + x] == #[trigger] w[x],
{
    assert forall|x: int| 0 <= x < w.len() implies s[i + x] == #[trigger] w[x] by {
        assert(s.subrange(i, i + w.len())[x] == s[i + x]);
    }
}

/// The decimal form of a non-negative integer is a non-empty digit run
/// that reads back to the same value.
pub proof fn lemma_dec_str_digits(n: int)
    requires
        0 <= n,
    ensures
        dec_str(n).len() >= 1,
        digits_val(dec_str(n)) == n,
        forall|x: int| 0 <= x < dec_str(n).len() ==> is_digit_char(#[trigger] dec_str(n)[x]),
    decreases n,
{
    if n < 10 {
        let w = dec_str(n);
        assert(w =~= seq![digit_char(n)]);
        assert(w.drop_last() =~= Seq::<char>::empty());
        assert(digits_val(w) == digits_val(w.drop_last()) * 10 + digit_val(w.last()));
        assert(digit_val(digit_char(n)) == n);
    } else {
        lemma_dec_str_digits(n / 10);
        let p = dec_str(n / 10);
        let w = dec_str(n);
        assert(w =~= p + seq![digit_char(n % 10)]);
        assert(w.drop_last() =~= p);
        assert(w.last() == digit_char(n % 10));
        assert(digits_val(w) == digits_val(p) * 10 + digit_val(digit_char(n % 10)));
        assert(digit_val(digit_char(n % 10)) == n % 10);
        assert((n / 10) * 10 + n % 10 == n);
        assert forall|x: int| 0 <= x < w.len() implies is_digit_char(#[trigger] w[x]) by {
            if x < p.len() {
                assert(w[x] == p[x]);
            } else {
                assert(w[x] == digit_char(n % 10));
            }
        }
    }
}

/// Parsing the serialized form of a well-formed value at its position
/// consumes exactly that form and yields the value, provided the next
/// character is a separator or the closing brace.
proof fn lemma_parse_value_ser(s: Seq<char>, i: int, v: ValueModel)
    requires
        0 <= i,
        match v {
            ValueModel::Bool(_) => true,
            ValueModel::Int(n) => 0 <= n <= i64::MAX,
            ValueModel::Str(t) => is_plain_text(t),
        },
        i + ser_val(v).len() < s.len(),
        s.subrange(i, i + ser_val(v).len()) == ser_val(v),
        s[i + ser_val(v).len()] == ',' || s[i + ser_val(v).len()] == '}',
    ensures
        parse_value(s, i) == Some((v, i + ser_val(v).len())),
{
    reveal_strlit("true");
    reveal_strlit("false");
    let w = ser_val(v);
    let end = i + w.len();
    lemma_subrange_chars(s, i, w);
    match v {
        ValueModel::Bool(b) => {
            if b {
                assert(w == "true"@);
                assert(s[i] == 't') by {
                    assert(s[i + 0] == w[0]);
                }
                assert(lit_at(s, i, "true"@));
            } else {
                assert(w == "false"@);
                assert(s[i] == 'f') by {
                    assert(s[i + 0] == w[0]);
                }
                assert(!lit_at(s, i, "true"@)) by {
                    if lit_at(s, i, "true"@) {
                        assert(s[i + 0] == "true"@[0]);
                    }
                }
                assert(lit_at(s, i, "false"@));
            }
        }
        ValueModel::Int(n) => {
            lemma_dec_str_digits(n);
            assert(w == dec_str(n));
            assert(is_digit_char(s[i])) by {
                assert(s[i + 0] == w[0]);
            }
            assert(s[i] != '"' && s[i] != 't' && s[i] != 'f' && s[i] != '-');
            assert(!lit_at(s, i, "true"@)) by {
                if lit_at(s, i, "true"@) {
                    assert(s[i + 0] == "true"@[0]);
                }
            }
            assert(!lit_at(s, i, "false"@)) by {
                if lit_at(s, i, "false"@) {
                    assert(s[i + 0] == "false"@[0]);
                }
            }
            assert forall|k: int| i <= k < end implies is_digit_char(#[trigger] s[k]) by {
                assert(s[i + (k - i)] == w[k - i]);
            }
            assert(!is_digit_char(s[end]));
            lemma_digit_end_is(s, i, end);
            assert(s.subrange(i, end) == w);
            assert(digits_val(s.subrange(i, end)) == n);
        }
        ValueModel::Str(t) => {
            assert(w == quote_str(t));
            assert(s[i] == '"') by {
                assert(s[i + 0] == w[0]);
            }
            let q = i + 1 + t.len();
            assert forall|k: int| i + 1 <= k < q implies is_plain_char(#[trigger] s[k])
                && s[k] != '"' by {
                assert(s[i + (k - i)] == w[k - i]);
                assert(w[k - i] == t[k - i - 1]);
            }
            assert(s[q] == '"') by {
                assert(s[i + (q - i)] == w[q - i]);
            }
            lemma_str_body_scan(s, i + 1, q);
            assert(s.subrange(i + 1, q) =~= t) by {
                assert forall|x: int| 0 <= x < t.len() implies s.subrange(i + 1, q)[x] == t[x] by {
                    assert(s[i + (x + 1)] == w[x + 1]);
                    assert(w[x + 1] == t[x]);
                }
            }
            assert(str_body(s, i + 1) == Some((t, q + 1)));
            assert(end == q + 1);
        }
    }
}

/// Parsing the serialized form of a well-formed entry at its position
/// consumes exactly that form and yields the entry.
proof fn lemma_parse_entry_ser(s: Seq<char>, i: int, k: Seq<char>, v: ValueModel)
    requires
        0 <= i,
        entry_wf(k, v),
        i + ser_entry(k, v).len() < s.len(),
        s.subrange(i, i + ser_entry(k, v).len()) == ser_entry(k, v),
        s[i + ser_entry(k, v).len()] == ',' || s[i + ser_entry(k, v).len()] == '}',
    ensures
        parse_entry(s, i) == Some(((k, v), i + ser_entry(k, v).len())),
{
    reveal_strlit("true");
    reveal_strlit("false");
    let w = ser_entry(k, v);
    let end = i + w.len();
    let kl = k.len() as int;
    lemma_recognized_key_plain(k);
    lemma_subrange_chars(s, i, w);
    assert(w == quote_str(k) + seq![':'] + ser_val(v));
    assert(s[i] == '"') by {
        assert(s[i + 0] == w[0]);
        assert(w[0] == quote_str(k)[0]);
    }
    assert(skip_ws(s, i, false) == i);
    // the quoted key
    let q = i + 1 + kl;
    assert forall|x: int| i + 1 <= x < q implies is_plain_char(#[trigger] s[x]) && s[x] != '"' by {
        assert(s[i + (x - i)] == w[x - i]);
        assert(w[x - i] == quote_str(k)[x - i]);
        assert(quote_str(k)[x - i] == k[x - i - 1]);
    }
    assert(s[q] == '"') by {
        assert(s[i + (q - i)] == w[q - i]);
        assert(w[q - i] == quote_str(k)[q - i]);
    }
    lemma_str_body_scan(s, i + 1, q);
    assert(s.subrange(i + 1, q) =~= k) by {
        assert forall|x: int| 0 <= x < kl implies s.subrange(i + 1, q)[x] == k[x] by {
            assert(s[i + (x + 1)] == w[x + 1]);
            assert(w[x + 1] == quote_str(k)[x + 1]);
        }
    }
    assert(str_body(s, i + 1) == Some((k, q + 1)));
    assert(parse_key(s, i) == Some((k, q + 1)));
    // the colon
    assert(s[q + 1] == ':') by {
        assert(s[i + (q + 1 - i)] == w[q + 1 - i]);
        assert(w[kl + 2] == ':');
    }
    assert(skip_ws(s, q + 1, false) == q + 1);
    // the value
    let vi = q + 2;
    let vw = ser_val(v);
    assert(s.subrange(vi, end) =~= vw) by {
        assert forall|x: int| 0 <= x < vw.len() implies s.subrange(vi, end)[x] == vw[x] by {
            assert(s[i + (kl + 3 + x)] == w[kl + 3 + x]);
            assert(w[kl + 3 + x] == vw[x]);
        }
    }
    assert(s[vi] == vw[0]) by {
        assert(s.subrange(vi, end)[0] == s[vi]);
    }
    match v {
        ValueModel::Bool(b) => {
            reveal_strlit("true");
            reveal_strlit("false");
            assert(!is_ws_char(s[vi]) && s[vi] != '/');
        }
        ValueModel::Int(n) => {
            lemma_dec_str_digits(n);
            assert(is_digit_char(s[vi]));
            assert(!is_ws_char(s[vi]) && s[vi] != '/');
        }
        ValueModel::Str(t) => {
            assert(s[vi] == '"');
            assert(!is_ws_char(s[vi]) && s[vi] != '/');
        }
    }
    assert(skip_ws(s, vi, false) == vi);
    lemma_parse_value_ser(s, vi, v);
    assert(parse_value(s, vi) == Some((v, end)));
}

/// Parsing the serialized form of a non-empty well-formed entry list,
/// closed by a brace, consumes exactly that form and yields the list.
proof fn lemma_parse_entries_ser(s: Seq<char>, i: int, es: Seq<(Seq<char>, ValueModel)>)
    requires
        0 <= i,
        es.len() >= 1,
        forall|j: int| 0 <= j < es.len() ==> entry_wf((#[trigger] es[j]).0, es[j].1),
        i + ser_entries(es).len() < s.len(),
        s.subrange(i, i + ser_entries(es).len()) == ser_entries(es),
        s[i + ser_entries(es).len()] == '}',
    ensures
        parse_entries(s, i) == Some((es, i + ser_entries(es).len())),
    decreases es.len(),
{
    let w = ser_entries(es);
    let end = i + w.len();
    lemma_subrange_chars(s, i, w);
    let ew = ser_entry(es[0].0, es[0].1);
    if es.len() == 1 {
        assert(w == ew);
        lemma_parse_entry_ser(s, i, es[0].0, es[0].1);
        assert(s[end] == '}');
        assert(!is_ws_char(s[end]) && s[end] != '/');
        assert(skip_ws(s, end, false) == end);
        assert(parse_entries(s, i) == Some((seq![es[0]], end)));
        assert(seq![es[0]] =~= es);
    } else {
        let rest = es.drop_first();
        assert(w == ew + seq![','] + ser_entries(rest));
        let m = i + ew.len();
        assert(s.subrange(i, m) =~= ew) by {
            assert forall|x: int| 0 <= x < ew.len() implies s.subrange(i, m)[x] == ew[x] by {
                assert(s[i + x] == w[x]);
            }
        }
        assert(s[m] == ',') by {
            assert(s[i + (m - i)] == w[m - i]);
        }
        lemma_parse_entry_ser(s, i, es[0].0, es[0].1);
        assert(skip_ws(s, m, false) == m);
        let rw = ser_entries(rest);
        assert(s.subrange(m + 1, end) =~= rw) by {
            assert forall|x: int| 0 <= x < rw.len() implies s.subrange(m + 1, end)[x] == rw[x] by {
                assert(s[i + (ew.len() + 1 + x)] == w[ew.len() + 1 + x]);
                assert(w[ew.len() + 1 + x] == rw[x]);
            }
        }
        assert forall|j: int| 0 <= j < rest.len() implies
            entry_wf((#[trigger] rest[j]).0, rest[j].1) by {
            assert(rest[j] == es[j + 1]);
        }
        lemma_parse_entries_ser(s, m + 1, rest);
        assert(parse_entries(s, m + 1) == Some((rest, end)));
        assert(seq![es[0]] + rest =~= es);
    }
}

/// The round trip: parsing the canonical serialization of a well-formed
/// store yields exactly its entries, keys and values alike. Since
/// `Config::json` returns `ser_doc` of the store and `Config::from_json5`
/// returns `Ok` with the parsed entries whenever they are well formed,
/// rebuilding a store from its own serialization reproduces it.
pub proof fn lemma_round_trip(es: Seq<(Seq<char>, ValueModel)>)
    requires
        store_wf(es),
    ensures
        parse_doc(ser_doc(es)) == Some(es),
{
    let s = ser_doc(es);
    let body = ser_entries(es);
    assert(s == seq!['{'] + body + seq!['}']);
    assert(s[0] == '{');
    assert(s.len() == body.len() + 2);
    assert(skip_ws(s, 0, false) == 0);
    if es.len() == 0 {
        assert(body =~= Seq::<char>::empty());
        assert(s[1] == '}');
        assert(skip_ws(s, 1, false) == 1);
        assert(skip_ws(s, 2, false) == 2);
        assert(parse_doc(s) == Some(Seq::<(Seq<char>, ValueModel)>::empty()));
        assert(Seq::<(Seq<char>, ValueModel)>::empty() =~= es);
    } else {
        let ew = ser_entry(es[0].0, es[0].1);
        assert(body[0] == ew[0]) by {
            if es.len() == 1 {
            } else {
                assert(body == ew + seq![','] + ser_entries(es.drop_first()));
            }
        }
        assert(ew[0] == '"') by {
            assert(ew == quote_str(es[0].0) + seq![':'] + ser_val(es[0].1));
            assert(ew[0] == quote_str(es[0].0)[0]);
        }
        assert(s[1] == body[0]);
        assert(s[1] == '"');
        assert(skip_ws(s, 1, false) == 1);
        assert(s[1] != '}');
        assert(s.subrange(1, 1 + body.len() as int) =~= body) by {
            assert forall|x: int| 0 <= x < body.len() implies
                s.subrange(1, 1 + body.len() as int)[x] == body[x] by {
                assert(s.subrange(1, 1 + body.len() as int)[x] == s[1 + x]);
                assert(s[1 + x] == (seq!['{'] + body + seq!['}'])[1 + x]);
            }
        }
        assert(s[1 + body.len() as int] == '}');
        lemma_parse_entries_ser(s, 1, es);
        assert(parse_entries(s, 1) == Some((es, 1 + body.len() as int)));
        assert(skip_ws(s, s.len() as int, false) == s.len());
        assert(parse_doc(s) == Some(es));
    }
}

} // verus!
