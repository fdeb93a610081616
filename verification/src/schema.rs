//! The closed key schema of the configuration store: the recognized
//! dotted key paths, the value kind each expects, the transcoding of
//! legacy flat key names, and well-formedness of a store's contents.

use vstd::prelude::*;
use vstd::string::StrSliceExecFns;
use vstd::string::StringExecFns;
use crate::chars::{is_plain_text, plain_char, str_eq};

verus! {

/// The kind of value a recognized key expects.
#[derive(Clone, Copy, Debug, PartialEq, Eq, Structural)]
pub enum Kind {
    Bool,
    Int,
    Str,
}

/// A configuration value: a boolean, a non-negative integer setting,
/// or a text setting.
#[derive(Debug, Clone, PartialEq)]
pub enum ConfigValue {
    Bool(bool),
    Int(i64),
    Str(String),
}

/// The mathematical model of a configuration value.
pub enum ValueModel {
    Bool(bool),
    Int(int),
    Str(Seq<char>),
}

impl View for ConfigValue {
    type V = ValueModel;

    open spec fn view(&self) -> ValueModel {
        match self {
            ConfigValue::Bool(b) => ValueModel::Bool(*b),
            ConfigValue::Int(n) => ValueModel::Int(*n as int),
            ConfigValue::Str(s) => ValueModel::Str(s@),
        }
    }
}

/// The expected kind of a validated key path, or `None` for a key the
/// schema does not recognize.
pub open spec fn key_kind(k: Seq<char>) -> Option<Kind> {
    if k == "mode"@ || k == "id"@ || k == "connect.endpoints"@ || k == "listen.endpoints"@
        || k == "scouting.multicast.interface"@ || k == "scouting.multicast.address"@ {
        Some(Kind::Str)
    } else if k == "scouting.delay"@ || k == "scouting.timeout"@ {
        Some(Kind::Int)
    } else if k == "scouting.multicast.enabled"@ || k == "local_routing"@
        || k == "add_timestamp"@ {
        Some(Kind::Bool)
    } else {
        None
    }
}

/// Exec lookup of a key path in the schema.
pub fn kind_of_key(k: &str) -> (r: Option<Kind>)
    ensures
        r == key_kind(k@),
{
    if str_eq(k, "mode") || str_eq(k, "id") || str_eq(k, "connect.endpoints")
        || str_eq(k, "listen.endpoints") || str_eq(k, "scouting.multicast.interface")
        || str_eq(k, "scouting.multicast.address") {
        Some(Kind::Str)
    } else if str_eq(k, "scouting.delay") || str_eq(k, "scouting.timeout") {
        Some(Kind::Int)
    } else if str_eq(k, "scouting.multicast.enabled") || str_eq(k, "local_routing")
        || str_eq(k, "add_timestamp") {
        Some(Kind::Bool)
    } else {
        None
    }
}

/// The key transcoder: maps an external flat key name into the validated
/// key namespace. Canonical key paths pass through; legacy flat names are
/// rewritten; anything else is unrecognized.
pub open spec fn transcode_key(k: Seq<char>) -> Option<Seq<char>> {
    if key_kind(k) is Some {
        Some(k)
    } else if k == "peer"@ {
        Some("connect.endpoints"@)
    } else if k == "listener"@ {
        Some("listen.endpoints"@)
    } else if k == "multicast_scouting"@ {
        Some("scouting.multicast.enabled"@)
    } else if k == "multicast_interface"@ {
        Some("scouting.multicast.interface"@)
    } else if k == "multicast_address"@ {
        Some("scouting.multicast.address"@)
    } else if k == "scouting_delay"@ {
        Some("scouting.delay"@)
    } else {
        None
    }
}

/// Exec transcoding of a flat key name.
pub fn transcode(k: &str) -> (r: Option<String>)
    ensures
        match r {
            Some(t) => transcode_key(k@) == Some(t@),
            None => transcode_key(k@) is None,
        },
{
    if kind_of_key(k).is_some() {
        Some(k.to_owned())
    } else if str_eq(k, "peer") {
        Some(String::from_str("connect.endpoints"))
    } else if str_eq(k, "listener") {
        Some(String::from_str("listen.endpoints"))
    } else if str_eq(k, "multicast_scouting") {
        Some(String::from_str("scouting.multicast.enabled"))
    } else if str_eq(k, "multicast_interface") {
        Some(String::from_str("scouting.multicast.interface"))
    } else if str_eq(k, "multicast_address") {
        Some(String::from_str("scouting.multicast.address"))
    } else if str_eq(k, "scouting_delay") {
        Some(String::from_str("scouting.delay"))
    } else {
        None
    }
}

/// A value fits a kind: booleans for `Bool` keys, non-negative integers
/// for `Int` keys, and quote-free single-line text for `Str` keys.
pub open spec fn value_wf(kind: Kind, v: ValueModel) -> bool {
    match v {
        ValueModel::Bool(_) => kind == Kind::Bool,
        ValueModel::Int(n) => kind == Kind::Int && 0 <= n <= i64::MAX,
        ValueModel::Str(t) => kind == Kind::Str && is_plain_text(t),
    }
}

/// An entry is well formed when its key is recognized and its value fits
/// the key's kind.
pub open spec fn entry_wf(k: Seq<char>, v: ValueModel) -> bool {
    match key_kind(k) {
        Some(kind) => value_wf(kind, v),
        None => false,
    }
}

/// A store's contents are well formed: every entry is, and keys are unique.
pub open spec fn store_wf(s: Seq<(Seq<char>, ValueModel)>) -> bool {
    (forall|i: int| 0 <= i < s.len() ==> entry_wf((#[trigger] s[i]).0, s[i].1))
    && (forall|i: int, j: int| 0 <= i < j < s.len() ==> (#[trigger] s[i]).0 != (#[trigger] s[j]).0)
}

/// Exec check that a value fits a kind.
pub fn value_fits(kind: Kind, v: &ConfigValue) -> (r: bool)
    ensures
        r == value_wf(kind, v@),
{
    match v {
        ConfigValue::Bool(_) => matches!(kind, Kind::Bool),
        ConfigValue::Int(n) => matches!(kind, Kind::Int) && *n >= 0,
        ConfigValue::Str(s) => {
            if !matches!(kind, Kind::Str) {
                return false;
            }
            let len = s.as_str().unicode_len();
            let mut i: usize = 0;
            while i < len
                invariant
                    kind == Kind::Str,
                    v@ == ValueModel::Str(s@),
                    len == s@.len(),
                    i <= len,
                    forall|j: int| 0 <= j < i ==> crate::chars::is_plain_char(#[trigger] s@[j]),
                decreases len - i,
            {
                if !plain_char(s.as_str().get_char(i)) {
                    proof {
                        assert(!is_plain_text(s@)) by {
                            assert(!crate::chars::is_plain_char(s@[i as int]));
                        }
                    }
                    return false;
                }
                i += 1;
            }
            true
        }
    }
}

/// The model of an executable entry list.
pub open spec fn entries_view(s: Seq<(String, ConfigValue)>) -> Seq<(Seq<char>, ValueModel)> {
    s.map_values(|e: (String, ConfigValue)| (e.0@, e.1@))
}

/// The index of a key in an entry sequence, or -1 when absent.
pub open spec fn key_index(s: Seq<(Seq<char>, ValueModel)>, k: Seq<char>) -> int
    decreases s.len(),
{
    if s.len() == 0 {
        -1
    } else if s[0].0 == k {
        0
    } else {
        let r = key_index(s.drop_first(), k);
        if r < 0 { -1 } else { r + 1 }
    }
}

/// Insertion into an entry sequence: replace the value in place when the
/// key is present, append otherwise.
pub open spec fn spec_insert(
    s: Seq<(Seq<char>, ValueModel)>,
    k: Seq<char>,
    v: ValueModel,
) -> Seq<(Seq<char>, ValueModel)> {
    let i = key_index(s, k);
    if i >= 0 { s.update(i, (k, v)) } else { s.push((k, v)) }
}

/// `key_index` finds the first match: if the first `i` keys differ from
/// `k` and the key at `i` equals `k`, the index is `i`.
pub proof fn lemma_key_index_found(s: Seq<(Seq<char>, ValueModel)>, k: Seq<char>, i: int)
    requires
        0 <= i < s.len(),
        forall|j: int| 0 <= j < i ==> (#[trigger] s[j]).0 != k,
        s[i].0 == k,
    ensures
        key_index(s, k) == i,
    decreases s.len(),
{
    if i > 0 {
        assert(s[0].0 != k);
        lemma_key_index_found(s.drop_first(), k, i - 1);
    }
}

/// `key_index` is -1 exactly when no entry has the key.
pub proof fn lemma_key_index_none(s: Seq<(Seq<char>, ValueModel)>, k: Seq<char>)
    requires
        forall|j: int| 0 <= j < s.len() ==> (#[trigger] s[j]).0 != k,
    ensures
        key_index(s, k) == -1,
    decreases s.len(),
{
    if s.len() > 0 {
        lemma_key_index_none(s.drop_first(), k);
    }
}

/// Inserting a well-formed entry keeps a store well formed.
pub proof fn lemma_spec_insert_wf(s: Seq<(Seq<char>, ValueModel)>, k: Seq<char>, v: ValueModel)
    requires
        store_wf(s),
        entry_wf(k, v),
    ensures
        store_wf(spec_insert(s, k, v)),
    decreases s.len(),
{
    let i = key_index(s, k);
    lemma_key_index_bounds(s, k);
    if i >= 0 {
        assert(s[i].0 == k) by { lemma_key_index_hits(s, k); }
        let t = s.update(i, (k, v));
        assert forall|a: int, b: int| 0 <= a < b < t.len() implies
            (#[trigger] t[a]).0 != (#[trigger] t[b]).0 by {
            assert(s[a].0 != s[b].0);
        }
    } else {
        lemma_key_index_misses(s, k);
        let t = s.push((k, v));
        assert forall|a: int, b: int| 0 <= a < b < t.len() implies
            (#[trigger] t[a]).0 != (#[trigger] t[b]).0 by {
            if b == s.len() {
                assert(s[a].0 != k);
            } else {
                assert(s[a].0 != s[b].0);
            }
        }
    }
}

/// `key_index` stays within the sequence, or is -1.
pub proof fn lemma_key_index_bounds(s: Seq<(Seq<char>, ValueModel)>, k: Seq<char>)
    ensures
        -1 <= key_index(s, k) < s.len(),
    decreases s.len(),
{
    if s.len() > 0 && s[0].0 != k {
        lemma_key_index_bounds(s.drop_first(), k);
    }
}

/// Where `key_index` points, the key matches.
pub proof fn lemma_key_index_hits(s: Seq<(Seq<char>, ValueModel)>, k: Seq<char>)
    requires
        key_index(s, k) >= 0,
    ensures
        key_index(s, k) < s.len(),
        s[key_index(s, k)].0 == k,
    decreases s.len(),
{
    lemma_key_index_bounds(s, k);
    if s.len() > 0 && s[0].0 != k {
        lemma_key_index_hits(s.drop_first(), k);
    }
}

/// When `key_index` is -1, no entry has the key.
pub proof fn lemma_key_index_misses(s: Seq<(Seq<char>, ValueModel)>, k: Seq<char>)
    requires
        key_index(s, k) == -1,
    ensures
        forall|j: int| 0 <= j < s.len() ==> (#[trigger] s[j]).0 != k,
    decreases s.len(),
{
    if s.len() > 0 {
        if s[0].0 == k {
        } else {
            lemma_key_index_bounds(s.drop_first(), k);
            lemma_key_index_misses(s.drop_first(), k);
            assert forall|j: int| 0 <= j < s.len() implies (#[trigger] s[j]).0 != k by {
                if j > 0 {
                    assert(s.drop_first()[j - 1].0 != k);
                }
            }
        }
    }
}

/// Every recognized key is plain, non-empty text, so it can stand quoted
/// in the serialized form.
pub proof fn lemma_recognized_key_plain(k: Seq<char>)
    requires
        key_kind(k) is Some,
    ensures
        is_plain_text(k),
        k.len() >= 1,
{
    reveal_strlit("mode");
    reveal_strlit("id");
    reveal_strlit("connect.endpoints");
    reveal_strlit("listen.endpoints");
    reveal_strlit("scouting.multicast.interface");
    reveal_strlit("scouting.multicast.address");
    reveal_strlit("scouting.delay");
    reveal_strlit("scouting.timeout");
    reveal_strlit("scouting.multicast.enabled");
    reveal_strlit("local_routing");
    reveal_strlit("add_timestamp");
}

} // verus!
