//! The response parser: reconstructs key/value pairs from a flat,
//! space-delimited token stream. Free-standing `=` tokens are noise and are
//! discarded; every other token is trimmed and classified against the key
//! registry. A key opens a pending slot; a non-key token closes it as the
//! pending key's value. A key that follows a pending key gives that key an
//! empty value; a value with no pending key is dropped; a pending key left at
//! the end of the stream is dropped.

use vstd::prelude::*;

use crate::config_map::ConfigMap;
use crate::registry::is_key;
use crate::registry::is_key_spec;
use crate::text::split_spec;
use crate::text::split_tokens;
use crate::text::str_eq;
use crate::text::trim;
use crate::text::trim_spec;

verus! {

/// One left-to-right pass over the tokens, carrying the pending key and the
/// mapping built so far.
pub open spec fn parse_go(
    tokens: Seq<Seq<char>>,
    pending: Option<Seq<char>>,
    acc: Map<Seq<char>, Seq<char>>,
) -> Map<Seq<char>, Seq<char>>
    decreases tokens.len(),
{
    if tokens.len() == 0 {
        acc
    } else {
        let raw = tokens[0];
        let rest = tokens.subrange(1, tokens.len() as int);
        if raw == seq!['='] {
            parse_go(rest, pending, acc)
        } else {
            let t = trim_spec(raw);
            if is_key_spec(t) {
                match pending {
                    Option::None => parse_go(rest, Option::Some(t), acc),
                    Option::Some(k) => parse_go(rest, Option::Some(t), acc.insert(k, Seq::empty())),
                }
            } else {
                match pending {
                    Option::None => parse_go(rest, Option::None, acc),
                    Option::Some(k) => parse_go(rest, Option::None, acc.insert(k, t)),
                }
            }
        }
    }
}

/// The mapping that parsing a raw response denotes.
pub open spec fn parse_spec(s: Seq<char>) -> Map<Seq<char>, Seq<char>> {
    parse_go(split_spec(s), Option::None, Map::empty())
}

/// Parses a raw response string into a configuration mapping.
pub fn parse(response: &str) -> (m: ConfigMap)
    ensures
        m.wf(),
        m@ == parse_spec(response@),
{
    let tokens: Vec<String> = split_tokens(response);
    let mut result: ConfigMap = ConfigMap::new();
    let mut pending: Option<String> = None;
    let n: usize = tokens.len();
    let mut i: usize = 0;
    proof {
        assert(tokens.deep_view().skip(0) =~= tokens.deep_view());
    }
    while i < n
        invariant
            i <= n,
            n == tokens.deep_view().len(),
            tokens.deep_view() == split_spec(response@),
            result.wf(),
            parse_spec(response@) == parse_go(
                tokens.deep_view().skip(i as int),
                pending.deep_view(),
                result@,
            ),
        decreases n - i,
    {
        proof {
            let ts = tokens.deep_view().skip(i as int);
            assert(ts[0] == tokens.deep_view()[i as int]);
            assert(ts.subrange(1, ts.len() as int) =~= tokens.deep_view().skip(i as int + 1));
            reveal_strlit("=");
            assert("="@ =~= seq!['=']);
        }
        let tok: &str = tokens[i].as_str();
        if str_eq(tok, "=") {
        } else {
            let t: &str = trim(tok);
            if is_key(t) {
                let prev: Option<String> = pending;
                pending = Some(String::from_str(t));
                if let Some(k) = prev {
                    result.insert(k, String::new());
                }
            } else {
                let prev: Option<String> = pending;
                pending = None;
                if let Some(k) = prev {
                    result.insert(k, String::from_str(t));
                }
            }
        }
        i = i + 1;
    }
    proof {
        assert(tokens.deep_view().skip(n as int) =~= Seq::<Seq<char>>::empty());
    }
    result
}

} // verus!
