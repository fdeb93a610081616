//! The line-oriented configuration file format: one `key=value` property
//! per line, `#`-prefixed comment lines and blank lines ignored.

use vstd::prelude::*;
use vstd::string::StrSliceExecFns;
use vstd::string::StringExecFns;
use crate::chars::{is_ws_char, ws_char};
use crate::config::pairs_view;

verus! {

/// The end of the line starting at `i`: the next line break, or the end
/// of the text.
pub open spec fn line_end(s: Seq<char>, i: int) -> int
    decreases s.len() - i,
{
    if 0 <= i && i < s.len() && s[i] != '\n' { line_end(s, i + 1) } else { i }
}

/// The first `=` in `[i, e)`, or -1.
pub open spec fn first_eq(s: Seq<char>, i: int, e: int) -> int
    decreases e - i,
{
    if !(0 <= i && i < e && e <= s.len()) {
        -1
    } else if s[i] == '=' {
        i
    } else {
        first_eq(s, i + 1, e)
    }
}

/// A stretch of nothing but whitespace.
pub open spec fn is_blank(s: Seq<char>, i: int, e: int) -> bool {
    forall|k: int| i <= k < e ==> is_ws_char(#[trigger] s[k])
}

pub proof fn lemma_line_end_props(s: Seq<char>, i: int)
    requires
        0 <= i <= s.len(),
    ensures
        i <= line_end(s, i) <= s.len(),
    decreases s.len() - i,
{
    if i < s.len() && s[i] != '\n' {
        lemma_line_end_props(s, i + 1);
    }
}

/// The raw key/value pairs of a property text, line by line: blank and
/// comment lines contribute nothing; any other line must hold an `=`.
pub open spec fn parse_props_from(s: Seq<char>, i: int) -> Option<Seq<(Seq<char>, Seq<char>)>>
    decreases s.len() + 1 - i,
    via parse_props_dec
{
    if i < 0 {
        None
    } else if i >= s.len() {
        Some(Seq::empty())
    } else {
        let e = line_end(s, i);
        let head: Option<Seq<(Seq<char>, Seq<char>)>> = if is_blank(s, i, e) || s[i] == '#' {
            Some(Seq::empty())
        } else {
            let p = first_eq(s, i, e);
            if p < 0 {
                None
            } else {
                Some(seq![(s.subrange(i, p), s.subrange(p + 1, e))])
            }
        };
        match (head, parse_props_from(s, e + 1)) {
            (Some(h), Some(r)) => Some(h + r),
            _ => None,
        }
    }
}

#[via_fn]
proof fn parse_props_dec(s: Seq<char>, i: int) {
    if 0 <= i && i < s.len() {
        lemma_line_end_props(s, i);
    }
}

pub fn line_end_x(s: &str, i: usize, len: usize) -> (r: usize)
    requires
        len == s@.len(),
        i <= len,
    ensures
        r as int == line_end(s@, i as int),
        i <= r <= len,
    decreases len - i,
{
    if i < len && s.get_char(i) != '\n' {
        line_end_x(s, i + 1, len)
    } else {
        i
    }
}

pub fn first_eq_x(s: &str, i: usize, e: usize, len: usize) -> (r: Option<usize>)
    requires
        len == s@.len(),
        i <= e <= len,
    ensures
        match r {
            Some(p) => first_eq(s@, i as int, e as int) == p as int && i <= p < e,
            None => first_eq(s@, i as int, e as int) == -1,
        },
    decreases e - i,
{
    if i >= e {
        None
    } else if s.get_char(i) == '=' {
        Some(i)
    } else {
        first_eq_x(s, i + 1, e, len)
    }
}

pub fn is_blank_x(s: &str, i: usize, e: usize, len: usize) -> (r: bool)
    requires
        len == s@.len(),
        i <= e <= len,
    ensures
        r == is_blank(s@, i as int, e as int),
    decreases e - i,
{
    if i >= e {
        true
    } else if !ws_char(s.get_char(i)) {
        proof {
            assert(!is_blank(s@, i as int, e as int)) by {
                assert(!is_ws_char(s@[i as int]));
            }
        }
        false
    } else {
        let rest = is_blank_x(s, i + 1, e, len);
        proof {
            if rest {
                assert forall|k: int| i <= k < e implies is_ws_char(#[trigger] s@[k]) by {
                    if k > i {
                        assert(is_blank(s@, i as int + 1, e as int));
                    }
                }
            } else {
                assert(!is_blank(s@, i as int, e as int)) by {
                    if is_blank(s@, i as int, e as int) {
                        assert forall|k: int| i + 1 <= k < e implies
                            is_ws_char(#[trigger] s@[k]) by {
                            assert(is_blank(s@, i as int, e as int));
                        }
                    }
                }
            }
        }
        rest
    }
}

/// Reads a whole property text into raw key/value pairs, or nothing when
/// some line is neither blank, nor a comment, nor a `key=value` pair.
pub fn parse_props_x(s: &str, i: usize, len: usize) -> (r: Option<Vec<(String, String)>>)
    requires
        len == s@.len(),
        i <= len,
    ensures
        match r {
            Some(v) => parse_props_from(s@, i as int) == Some(pairs_view(v@)),
            None => parse_props_from(s@, i as int) is None,
        },
    decreases len - i,
{
    if i >= len {
        let v: Vec<(String, String)> = Vec::new();
        proof {
            assert(pairs_view(v@) =~= Seq::<(Seq<char>, Seq<char>)>::empty());
        }
        return Some(v);
    }
    let e = line_end_x(s, i, len);
    let skip = is_blank_x(s, i, e, len) || s.get_char(i) == '#';
    if skip {
        let rest = if e >= len {
            let v: Vec<(String, String)> = Vec::new();
            proof {
                assert(pairs_view(v@) =~= Seq::<(Seq<char>, Seq<char>)>::empty());
                assert(parse_props_from(s@, e as int + 1)
                    == Some(Seq::<(Seq<char>, Seq<char>)>::empty()));
            }
            Some(v)
        } else {
            parse_props_x(s, e + 1, len)
        };
        match rest {
            None => None,
            Some(v) => {
                proof {
                    assert(Seq::<(Seq<char>, Seq<char>)>::empty() + pairs_view(v@)
                        =~= pairs_view(v@));
                }
                Some(v)
            }
        }
    } else {
        match first_eq_x(s, i, e, len) {
            None => None,
            Some(p) => {
                let k = String::from_str(s.substring_char(i, p));
                let val = String::from_str(s.substring_char(p + 1, e));
                let rest = if e >= len {
                    let v: Vec<(String, String)> = Vec::new();
                    proof {
                        assert(pairs_view(v@) =~= Seq::<(Seq<char>, Seq<char>)>::empty());
                        assert(parse_props_from(s@, e as int + 1)
                            == Some(Seq::<(Seq<char>, Seq<char>)>::empty()));
                    }
                    Some(v)
                } else {
                    parse_props_x(s, e + 1, len)
                };
                match rest {
                    None => None,
                    Some(mut v) => {
                        let ghost pre = v@;
                        v.insert(0, (k, val));
                        proof {
                            assert(pairs_view(v@) =~= seq![(k@, val@)] + pairs_view(pre));
                        }
                        Some(v)
                    }
                }
            }
        }
    }
}

} // verus!
