//! The query encoder: serializes a configuration mapping into a query string.
//! The output starts with `?` and holds `key=value` pairs joined by `&`, in
//! the order of the entries — ascending key order for a well-formed mapping.
//! No escaping is applied. An empty mapping encodes to just `?`.

use vstd::prelude::*;

use crate::config_map::ConfigMap;

verus! {

/// The `key=value` pairs of the entries, joined by `&`.
pub open spec fn encode_entries(es: Seq<(Seq<char>, Seq<char>)>) -> Seq<char>
    decreases es.len(),
{
    if es.len() == 0 {
        Seq::empty()
    } else if es.len() == 1 {
        es[0].0 + seq!['='] + es[0].1
    } else {
        es[0].0 + seq!['='] + es[0].1 + seq!['&'] + encode_entries(es.subrange(1, es.len() as int))
    }
}

/// The full query string: `?`, then the joined `key=value` pairs.
pub open spec fn encode_spec(es: Seq<(Seq<char>, Seq<char>)>) -> Seq<char> {
    seq!['?'] + encode_entries(es)
}

/// Serializes a mapping into a query string, entry by entry.
pub fn create_querystring(parameters: ConfigMap) -> (r: String)
    ensures
        r@ == encode_spec(parameters.entries_view()),
{
    let ghost es = parameters.entries_view();
    let mut querystring: String = String::from_str("?");
    proof {
        reveal_strlit("?");
        reveal_strlit("=");
        reveal_strlit("&");
        assert("?"@ =~= seq!['?']);
        assert("="@ =~= seq!['=']);
        assert("&"@ =~= seq!['&']);
        assert(es.skip(0) =~= es);
        assert(querystring@ + encode_entries(es) =~= encode_spec(es));
    }
    let n: usize = parameters.entries.len();
    let mut i: usize = 0;
    while i < n
        invariant
            i <= n,
            n == es.len(),
            es == parameters.entries_view(),
            "="@ == seq!['='],
            "&"@ == seq!['&'],
            encode_spec(es) == querystring@ + encode_entries(es.skip(i as int)),
        decreases n - i,
    {
        proof {
            let rest = es.skip(i as int);
            assert(rest[0] == es[i as int]);
            assert(rest.subrange(1, rest.len() as int) =~= es.skip(i as int + 1));
        }
        querystring.append(parameters.entries[i].0.as_str());
        querystring.append("=");
        querystring.append(parameters.entries[i].1.as_str());
        if i + 1 < n {
            querystring.append("&");
        }
        proof {
            assert(querystring@ + encode_entries(es.skip(i as int + 1)) =~= encode_spec(es));
        }
        i = i + 1;
    }
    proof {
        assert(querystring@ =~= encode_spec(es));
    }
    querystring
}

} // verus!
