//! The configuration store: an ordered mapping from validated key paths
//! to typed values, built from structured text, from file content or
//! from an untyped flat mapping, and serialized back to canonical text.

use vstd::prelude::*;
use vstd::string::StrSliceExecFns;
use vstd::string::StringExecFns;
use crate::chars::{is_plain_text, str_eq, plain_char};
use crate::error::{ErrorKind, TranslatedError};
use crate::schema::{
    Kind, ConfigValue, ValueModel, key_kind, kind_of_key, transcode_key, transcode, value_wf,
    entry_wf, store_wf, entries_view, spec_insert, lemma_key_index_found,
    lemma_key_index_none, lemma_spec_insert_wf,
};
use crate::text::{
    skip_ws, parse_doc, parse_value_text, ser_doc, ser_entries, digit_end, digits_val,
    lemma_digit_end_is, lemma_ser_entries_snoc, skip_ws_x, parse_doc_x, parse_value_text_x,
    write_entry,
};

verus! {

/// An ordered store of validated configuration entries.
#[derive(Debug, Clone, PartialEq)]
pub struct Config {
    entries: Vec<(String, ConfigValue)>,
}

impl View for Config {
    type V = Seq<(Seq<char>, ValueModel)>;

    closed spec fn view(&self) -> Seq<(Seq<char>, ValueModel)> {
        entries_view(self.entries@)
    }
}

/// The value accepted by the one-key insertion path: the key must be
/// recognized, the text must parse as a single value, and the value must
/// fit the key's kind.
pub open spec fn accepted_value(k: Seq<char>, s: Seq<char>) -> Option<ValueModel> {
    match key_kind(k) {
        Some(kind) => match parse_value_text(s) {
            Some(v) => if value_wf(kind, v) { Some(v) } else { None },
            None => None,
        },
        None => None,
    }
}

/// String-to-value coercion used by the flat paths: booleans from the
/// words `true` and `false`, integers from digit runs, text as itself.
pub open spec fn coerce_value(kind: Kind, raw: Seq<char>) -> Option<ValueModel> {
    match kind {
        Kind::Bool => if raw == "true"@ {
            Some(ValueModel::Bool(true))
        } else if raw == "false"@ {
            Some(ValueModel::Bool(false))
        } else {
            None
        },
        Kind::Int => if digit_end(raw, 0) == raw.len() && raw.len() > 0
            && digits_val(raw) <= i64::MAX as int {
            Some(ValueModel::Int(digits_val(raw)))
        } else {
            None
        },
        Kind::Str => if is_plain_text(raw) { Some(ValueModel::Str(raw)) } else { None },
    }
}

/// One flat pair, transcoded and coerced, or nothing when it is to be
/// dropped (lenient path) or rejected (strict path).
pub open spec fn props_entry(k: Seq<char>, v: Seq<char>) -> Option<(Seq<char>, ValueModel)> {
    match transcode_key(k) {
        Some(t) => match key_kind(t) {
            Some(kind) => match coerce_value(kind, v) {
                Some(w) => Some((t, w)),
                None => None,
            },
            None => None,
        },
        None => None,
    }
}

/// The model of an executable list of string pairs.
pub open spec fn pairs_view(d: Seq<(String, String)>) -> Seq<(Seq<char>, Seq<char>)> {
    d.map_values(|p: (String, String)| (p.0@, p.1@))
}

/// The lenient flat fold: recognized pairs are inserted, the rest are
/// silently dropped.
pub open spec fn flat_fold(
    acc: Seq<(Seq<char>, ValueModel)>,
    pairs: Seq<(Seq<char>, Seq<char>)>,
) -> Seq<(Seq<char>, ValueModel)>
    decreases pairs.len(),
{
    if pairs.len() == 0 {
        acc
    } else {
        let acc2 = match props_entry(pairs[0].0, pairs[0].1) {
            Some(e) => spec_insert(acc, e.0, e.1),
            None => acc,
        };
        flat_fold(acc2, pairs.drop_first())
    }
}

/// Exec coercion of a raw string to a kind.
pub fn coerce(kind: Kind, raw: &str) -> (r: Option<ConfigValue>)
    ensures
        match r {
            Some(v) => coerce_value(kind, raw@) == Some(v@) && value_wf(kind, v@),
            None => coerce_value(kind, raw@) is None,
        },
{
    match kind {
        Kind::Bool => {
            if str_eq(raw, "true") {
                Some(ConfigValue::Bool(true))
            } else if str_eq(raw, "false") {
                Some(ConfigValue::Bool(false))
            } else {
                None
            }
        }
        Kind::Int => {
            let len = raw.unicode_len();
            if len == 0 {
                return None;
            }
            let mut q: usize = 0;
            let mut acc: u64 = 0;
            let mut over = false;
            while q < len && crate::chars::digit(raw.get_char(q))
                invariant
                    len == raw@.len(),
                    q <= len,
                    forall|k: int| 0 <= k < q ==> crate::chars::is_digit_char(#[trigger] raw@[k]),
                    !over ==> acc as int == digits_val(raw@.subrange(0, q as int))
                        && acc <= i64::MAX as u64,
                    over ==> digits_val(raw@.subrange(0, q as int)) > i64::MAX as int,
                decreases len - q,
            {
                let ch = raw.get_char(q);
                let d: u64 = (ch as u32 as u64) - 48;
                proof {
                    let pre = raw@.subrange(0, q as int);
                    let post = raw@.subrange(0, q as int + 1);
                    assert(post.drop_last() =~= pre);
                    assert(post.last() == raw@[q as int]);
                    assert(d == crate::chars::digit_val(raw@[q as int]));
                }
                if !over {
                    if acc <= (9_223_372_036_854_775_807u64 - d) / 10 {
                        proof {
                            assert(acc * 10 + d <= i64::MAX as u64) by {
                                let m: int = i64::MAX as int;
                                assert(10 * ((m - d) / 10) + (m - d) % 10 == m - d);
                                assert(acc as int * 10 <= 10 * ((m - d) / 10));
                            }
                        }
                        acc = acc * 10 + d;
                    } else {
                        proof {
                            assert(acc as int * 10 + d > i64::MAX as int) by {
                                let m: int = i64::MAX as int;
                                assert(10 * ((m - d) / 10) + (m - d) % 10 == m - d);
                                assert(acc as int >= (m - d) / 10 + 1);
                                assert(acc as int * 10 >= 10 * ((m - d) / 10) + 10);
                            }
                        }
                        over = true;
                    }
                } else {
                    proof {
                        let pre = raw@.subrange(0, q as int);
                        assert(digits_val(pre) * 10 >= digits_val(pre));
                    }
                }
                q += 1;
            }
            proof {
                lemma_digit_end_is(raw@, 0, q as int);
            }
            if q < len {
                return None;
            }
            if over {
                proof {
                    assert(raw@.subrange(0, len as int) =~= raw@);
                }
                return None;
            }
            proof {
                assert(raw@.subrange(0, len as int) =~= raw@);
            }
            Some(ConfigValue::Int(acc as i64))
        }
        Kind::Str => {
            let len = raw.unicode_len();
            let mut q: usize = 0;
            while q < len
                invariant
                    kind == Kind::Str,
                    len == raw@.len(),
                    q <= len,
                    forall|k: int| 0 <= k < q ==> crate::chars::is_plain_char(#[trigger] raw@[k]),
                decreases len - q,
            {
                if !plain_char(raw.get_char(q)) {
                    proof {
                        assert(!is_plain_text(raw@)) by {
                            assert(!crate::chars::is_plain_char(raw@[q as int]));
                        }
                    }
                    return None;
                }
                q += 1;
            }
            proof {
                assert(is_plain_text(raw@));
            }
            Some(ConfigValue::Str(raw.to_owned()))
        }
    }
}

impl Config {
    /// The store's contents are well formed.
    pub open spec fn wf(self) -> bool {
        store_wf(self@)
    }

    /// An empty store.
    pub fn new() -> (r: Config)
        ensures
            r@ == Seq::<(Seq<char>, ValueModel)>::empty(),
            r.wf(),
    {
        let r = Config { entries: Vec::new() };
        proof {
            assert(r@ =~= Seq::<(Seq<char>, ValueModel)>::empty());
        }
        r
    }

    /// Replace-or-append insertion of an already validated entry.
    fn insert_entry(&mut self, key: &str, v: ConfigValue)
        ensures
            final(self)@ == spec_insert(old(self)@, key@, v@),
    {
        let n = self.entries.len();
        let mut idx: usize = 0;
        while idx < n
            invariant
                n == self.entries.len(),
                idx <= n,
                *self == *old(self),
                forall|j: int| 0 <= j < idx ==> (#[trigger] self@[j]).0 != key@,
            decreases n - idx,
        {
            if str_eq(self.entries[idx].0.as_str(), key) {
                proof {
                    lemma_key_index_found(self@, key@, idx as int);
                }
                let ghost before = self@;
                self.entries.set(idx, (key.to_owned(), v));
                proof {
                    assert(self@ =~= before.update(idx as int, (key@, v@)));
                }
                return;
            }
            idx += 1;
        }
        proof {
            lemma_key_index_none(self@, key@);
        }
        let ghost before = self@;
        self.entries.push((key.to_owned(), v));
        proof {
            assert(self@ =~= before.push((key@, v@)));
        }
    }

    /// Parses `value` as one structured value and validates it against
    /// `key`'s schema; stores it and returns true on success, leaves the
    /// store unchanged and returns false otherwise. Parse and validation
    /// detail is deliberately collapsed into the boolean on this
    /// convenience path; the text and file constructors diagnose.
    pub fn insert_json5(&mut self, key: &str, value: &str) -> (r: bool)
        ensures
            match accepted_value(key@, value@) {
                Some(v) => r == true && final(self)@ == spec_insert(old(self)@, key@, v),
                None => r == false && final(self)@ == old(self)@,
            },
            old(self).wf() ==> final(self).wf(),
    {
        match kind_of_key(key) {
            None => false,
            Some(kind) => match parse_value_text_x(value) {
                None => false,
                Some(v) => {
                    if crate::schema::value_fits(kind, &v) {
                        proof {
                            if old(self).wf() {
                                lemma_spec_insert_wf(self@, key@, v@);
                            }
                        }
                        self.insert_entry(key, v);
                        true
                    } else {
                        false
                    }
                }
            },
        }
    }

    /// Schema validation of the whole store: every key recognized, every
    /// value fitting, no duplicate keys.
    fn check_wf(&self) -> (r: bool)
        ensures
            r == store_wf(self@),
    {
        let n = self.entries.len();
        let mut i: usize = 0;
        while i < n
            invariant
                n == self.entries.len(),
                i <= n,
                forall|j: int| 0 <= j < i ==> entry_wf((#[trigger] self@[j]).0, self@[j].1),
            decreases n - i,
        {
            let kindo = kind_of_key(self.entries[i].0.as_str());
            match kindo {
                None => {
                    proof {
                        assert(!entry_wf(self@[i as int].0, self@[i as int].1));
                    }
                    return false;
                }
                Some(kind) => {
                    if !crate::schema::value_fits(kind, &self.entries[i].1) {
                        proof {
                            assert(!entry_wf(self@[i as int].0, self@[i as int].1));
                        }
                        return false;
                    }
                }
            }
            i += 1;
        }
        let mut a: usize = 0;
        while a < n
            invariant
                n == self.entries.len(),
                a <= n,
                forall|j: int| 0 <= j < n ==> entry_wf((#[trigger] self@[j]).0, self@[j].1),
                forall|x: int, y: int| 0 <= x < y < n && x < a ==>
                    (#[trigger] self@[x]).0 != (#[trigger] self@[y]).0,
            decreases n - a,
        {
            let mut b: usize = a + 1;
            while b < n
                invariant
                    n == self.entries.len(),
                    a < b <= n || (a + 1 == b && b > n),
                    a < n,
                    forall|j: int| 0 <= j < n ==> entry_wf((#[trigger] self@[j]).0, self@[j].1),
                    forall|x: int, y: int| 0 <= x < y < n && x < a ==>
                        (#[trigger] self@[x]).0 != (#[trigger] self@[y]).0,
                    forall|y: int| a < y < b ==> (#[trigger] self@[y]).0 != self@[a as int].0,
                decreases n - b,
            {
                if str_eq(self.entries[a].0.as_str(), self.entries[b].0.as_str()) {
                    proof {
                        assert(self@[a as int].0 == self@[b as int].0);
                    }
                    return false;
                }
                b += 1;
            }
            a += 1;
        }
        true
    }

    /// Parses a whole structured document and validates it against the
    /// schema. Malformed text is a `ParseError`; a well-formed document
    /// with an unrecognized key, an ill-typed value or a duplicate key is
    /// a `ValidationError`; otherwise the populated store is returned.
    pub fn from_json5(input: &str) -> (r: Result<Config, TranslatedError>)
        ensures
            match parse_doc(input@) {
                Some(es) => if store_wf(es) {
                    r matches Ok(c) && c@ == es
                } else {
                    r matches Err(e) && e.kind == ErrorKind::ValidationError
                },
                None => r matches Err(e) && e.kind == ErrorKind::ParseError,
            },
            r matches Ok(c) ==> c.wf(),
    {
        match parse_doc_x(input) {
            None => Err(TranslatedError::parse(String::from_str("malformed configuration text"))),
            Some(es) => {
                let c = Config { entries: es };
                if c.check_wf() {
                    Ok(c)
                } else {
                    Err(TranslatedError::validation(String::from_str(
                        "invalid configuration: unrecognized key, ill-typed value or duplicate key",
                    )))
                }
            }
        }
    }

    /// Serializes the store to its canonical structured text.
    pub fn json(&self) -> (r: String)
        requires
            self.wf(),
        ensures
            r@ == ser_doc(self@),
    {
        let mut out = String::from_str("{");
        proof {
            reveal_strlit("{");
        }
        let n = self.entries.len();
        let mut i: usize = 0;
        while i < n
            invariant
                self.wf(),
                n == self.entries.len(),
                i <= n,
                out@ == seq!['{'] + ser_entries(self@.take(i as int)),
            decreases n - i,
        {
            if i > 0 {
                out.append(",");
            }
            proof {
                assert(entry_wf(self@[i as int].0, self@[i as int].1));
            }
            write_entry(&mut out, &self.entries[i].0, &self.entries[i].1);
            proof {
                reveal_strlit(",");
                assert(self@.take(i as int + 1) =~= self@.take(i as int).push(self@[i as int]));
                lemma_ser_entries_snoc(self@.take(i as int), self@[i as int]);
                assert(out@ =~= seq!['{'] + ser_entries(self@.take(i as int + 1)));
            }
            i += 1;
        }
        out.append("}");
        proof {
            reveal_strlit("}");
            assert(self@.take(n as int) =~= self@);
            assert(out@ =~= ser_doc(self@));
        }
        out
    }

    /// The validated keys currently present, in the store's stable order.
    pub fn keys(&self) -> (r: Vec<String>)
        ensures
            r@.len() == self@.len(),
            forall|i: int| 0 <= i < r@.len() ==> (#[trigger] r@[i])@ == self@[i].0,
    {
        let mut r: Vec<String> = Vec::new();
        let n = self.entries.len();
        let mut i: usize = 0;
        while i < n
            invariant
                n == self.entries.len(),
                i <= n,
                r@.len() == i,
                forall|j: int| 0 <= j < i ==> (#[trigger] r@[j])@ == self@[j].0,
            decreases n - i,
        {
            r.push(self.entries[i].0.clone());
            i += 1;
        }
        r
    }
}

impl Default for Config {
    /// The default store is the empty one.
    fn default() -> (r: Config)
        ensures
            r@ == Seq::<(Seq<char>, ValueModel)>::empty(),
            r.wf(),
    {
        Config::new()
    }
}

/// The strict reading of raw property pairs: every pair must transcode
/// and coerce, or the whole text is rejected.
pub open spec fn props_store(
    ps: Seq<(Seq<char>, Seq<char>)>,
) -> Option<Seq<(Seq<char>, ValueModel)>>
    decreases ps.len(),
{
    if ps.len() == 0 {
        Some(Seq::empty())
    } else {
        match props_entry(ps[0].0, ps[0].1) {
            Some(e) => match props_store(ps.drop_first()) {
                Some(r) => Some(seq![e] + r),
                None => None,
            },
            None => None,
        }
    }
}

/// A text whose first meaningful character is an opening brace is read
/// as a structured document; anything else as line-oriented properties.
pub open spec fn looks_structured(s: Seq<char>) -> bool {
    let i = skip_ws(s, 0, false);
    i < s.len() && s[i] == '{'
}

/// Strict exec reading of raw property pairs into validated entries.
fn props_to_entries_x(ps: &Vec<(String, String)>, i: usize) -> (r: Option<Vec<(String, ConfigValue)>>)
    requires
        i <= ps.len(),
    ensures
        match r {
            Some(v) => props_store(pairs_view(ps@).skip(i as int)) == Some(entries_view(v@)),
            None => props_store(pairs_view(ps@).skip(i as int)) is None,
        },
    decreases ps.len() - i,
{
    let ghost rem = pairs_view(ps@).skip(i as int);
    if i == ps.len() {
        let v: Vec<(String, ConfigValue)> = Vec::new();
        proof {
            assert(rem =~= Seq::<(Seq<char>, Seq<char>)>::empty());
            assert(entries_view(v@) =~= Seq::<(Seq<char>, ValueModel)>::empty());
        }
        return Some(v);
    }
    proof {
        assert(rem[0] == (ps@[i as int].0@, ps@[i as int].1@));
        assert(rem.drop_first() =~= pairs_view(ps@).skip(i as int + 1));
    }
    match transcode(ps[i].0.as_str()) {
        None => {
            proof {
                assert(props_entry(rem[0].0, rem[0].1) is None);
            }
            None
        }
        Some(t) => match kind_of_key(t.as_str()) {
            None => {
                proof {
                    assert(props_entry(rem[0].0, rem[0].1) is None);
                }
                None
            }
            Some(kind) => match coerce(kind, ps[i].1.as_str()) {
                None => {
                    proof {
                        assert(props_entry(rem[0].0, rem[0].1) is None);
                    }
                    None
                }
                Some(w) => {
                    proof {
                        assert(props_entry(rem[0].0, rem[0].1) == Some((t@, w@)));
                    }
                    match props_to_entries_x(ps, i + 1) {
                        None => None,
                        Some(mut es) => {
                            let ghost pre = es@;
                            es.insert(0, (t, w));
                            proof {
                                assert(entries_view(es@) =~= seq![(t@, w@)] + entries_view(pre));
                            }
                            Some(es)
                        }
                    }
                }
            },
        },
    }
}

impl Config {
    /// Builds a store from what a file read produced. A failed read is an
    /// `IoError` carrying the read diagnostic verbatim. Content shaped
    /// like a structured document follows the strict structured pipeline;
    /// anything else is read as `key=value` lines, where a line that is
    /// neither blank, nor a comment, nor a pair is a `ParseError`, and an
    /// unrecognized key, an uncoercible value or a duplicate key is a
    /// `ValidationError`.
    pub fn from_file_content(content: Result<String, String>) -> (r: Result<Config, TranslatedError>)
        ensures
            match content {
                Ok(text) => if looks_structured(text@) {
                    match parse_doc(text@) {
                        Some(es) => if store_wf(es) {
                            r matches Ok(c) && c@ == es
                        } else {
                            r matches Err(e) && e.kind == ErrorKind::ValidationError
                        },
                        None => r matches Err(e) && e.kind == ErrorKind::ParseError,
                    }
                } else {
                    match crate::props::parse_props_from(text@, 0) {
                        Some(ps) => match props_store(ps) {
                            Some(es) => if store_wf(es) {
                                r matches Ok(c) && c@ == es
                            } else {
                                r matches Err(e) && e.kind == ErrorKind::ValidationError
                            },
                            None => r matches Err(e) && e.kind == ErrorKind::ValidationError,
                        },
                        None => r matches Err(e) && e.kind == ErrorKind::ParseError,
                    }
                },
                Err(m) => r matches Err(e) && e.kind == ErrorKind::IoError && e.message@ == m@,
            },
            r matches Ok(c) ==> c.wf(),
    {
        match content {
            Err(m) => Err(TranslatedError::io(m)),
            Ok(text) => {
                let len = text.as_str().unicode_len();
                let i = skip_ws_x(text.as_str(), 0, len, false);
                if i < len && text.as_str().get_char(i) == '{' {
                    Config::from_json5(text.as_str())
                } else {
                    match crate::props::parse_props_x(text.as_str(), 0, len) {
                        None => Err(TranslatedError::parse(String::from_str(
                            "malformed configuration file: a line is neither blank, nor a comment, nor a key=value pair",
                        ))),
                        Some(ps) => {
                            proof {
                                assert(pairs_view(ps@).skip(0) =~= pairs_view(ps@));
                            }
                            match props_to_entries_x(&ps, 0) {
                                None => Err(TranslatedError::validation(String::from_str(
                                    "invalid configuration file: unrecognized key or uncoercible value",
                                ))),
                                Some(es) => {
                                    let c = Config { entries: es };
                                    if c.check_wf() {
                                        Ok(c)
                                    } else {
                                        Err(TranslatedError::validation(String::from_str(
                                            "invalid configuration file: duplicate key",
                                        )))
                                    }
                                }
                            }
                        }
                    }
                }
            }
        }
    }
}

/// Flat-mapping drop: a two-pair mapping whose first key is recognized
/// and whose second is not yields exactly the first entry; the stray key
/// raises no error, it is simply absent.
pub proof fn lemma_flat_drop(
    k1: Seq<char>,
    v1: Seq<char>,
    e1: (Seq<char>, ValueModel),
    k2: Seq<char>,
    v2: Seq<char>,
)
    requires
        props_entry(k1, v1) == Some(e1),
        props_entry(k2, v2) is None,
    ensures
        flat_fold(Seq::empty(), seq![(k1, v1), (k2, v2)]) == seq![e1],
{
    let ps = seq![(k1, v1), (k2, v2)];
    lemma_key_index_none(Seq::empty(), e1.0);
    assert(spec_insert(Seq::empty(), e1.0, e1.1) =~= seq![e1]);
    assert(ps[0] == (k1, v1));
    assert(ps.drop_first() =~= seq![(k2, v2)]);
    assert(ps.drop_first()[0] == (k2, v2));
    assert(ps.drop_first().drop_first() =~= Seq::<(Seq<char>, Seq<char>)>::empty());
    assert(flat_fold(Seq::empty(), ps) == flat_fold(spec_insert(Seq::empty(), e1.0, e1.1), ps.drop_first()));
    assert(flat_fold(seq![e1], ps.drop_first()) == flat_fold(seq![e1], ps.drop_first().drop_first()));
    assert(flat_fold(seq![e1], ps.drop_first().drop_first()) == seq![e1]);
}

/// Builds a store from an untyped flat mapping. Each key is transcoded
/// into the validated namespace and its value coerced to the key's kind;
/// unrecognized keys and uncoercible values are silently dropped — this
/// path is best effort by design, unlike the strict text and file paths.
pub fn pydict_to_props(dict: &Vec<(String, String)>) -> (r: Config)
    ensures
        r@ == flat_fold(Seq::empty(), pairs_view(dict@)),
        r.wf(),
{
    let mut c = Config::new();
    proof {
        assert(pairs_view(dict@).skip(0) =~= pairs_view(dict@));
    }
    let n = dict.len();
    let mut i: usize = 0;
    while i < n
        invariant
            n == dict.len(),
            i <= n,
            c.wf(),
            flat_fold(c@, pairs_view(dict@).skip(i as int))
                == flat_fold(Seq::empty(), pairs_view(dict@)),
        decreases n - i,
    {
        let ghost rem = pairs_view(dict@).skip(i as int);
        proof {
            assert(rem[0] == (dict@[i as int].0@, dict@[i as int].1@));
            assert(rem.drop_first() =~= pairs_view(dict@).skip(i as int + 1));
        }
        match transcode(dict[i].0.as_str()) {
            None => {
                proof {
                    assert(props_entry(rem[0].0, rem[0].1) is None);
                }
            }
            Some(t) => {
                match kind_of_key(t.as_str()) {
                    None => {
                        proof {
                            assert(props_entry(rem[0].0, rem[0].1) is None);
                        }
                    }
                    Some(kind) => {
                        match coerce(kind, dict[i].1.as_str()) {
                            None => {
                                proof {
                                    assert(props_entry(rem[0].0, rem[0].1) is None);
                                }
                            }
                            Some(w) => {
                                proof {
                                    assert(props_entry(rem[0].0, rem[0].1) == Some((t@, w@)));
                                    assert(entry_wf(t@, w@));
                                    lemma_spec_insert_wf(c@, t@, w@);
                                }
                                c.insert_entry(t.as_str(), w);
                            }
                        }
                    }
                }
            }
        }
        i += 1;
    }
    proof {
        assert(pairs_view(dict@).skip(n as int) =~= Seq::<(Seq<char>, Seq<char>)>::empty());
    }
    c
}

} // verus!
