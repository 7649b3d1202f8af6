//! The parser/encoder round trip: parsing the canonical flat rendering
//! `k1 = v1 k2 = v2 ...` of well-formed key/value pairs yields exactly the
//! mapping of those pairs, so re-encoding it reproduces the same keys with
//! the same values.

use vstd::prelude::*;

use crate::config_map::entries_map;
use crate::config_map::lemma_entries_map_unique;
use crate::config_map::ConfigMap;
use crate::encoder::encode_spec;
use crate::parser::parse_go;
use crate::parser::parse_spec;
use crate::registry::is_key_spec;
use crate::text::is_space_char;
use crate::text::join_spec;
use crate::text::lemma_split_join;
use crate::text::lemma_trim_clean;
use crate::text::split_spec;
use crate::text::trim_spec;

verus! {

/// A token that survives the flat format unchanged: it holds no whitespace
/// character, and it is not the noise token `=`.
pub open spec fn clean_token(t: Seq<char>) -> bool {
    (forall|j: int| 0 <= j < t.len() ==> !is_space_char(t[j])) && t != seq!['=']
}

/// A well-formed pair: the key is a clean registry key, and the value is a
/// clean token that is not itself a key.
pub open spec fn well_formed_pair(p: (Seq<char>, Seq<char>)) -> bool {
    is_key_spec(p.0) && clean_token(p.0) && clean_token(p.1) && !is_key_spec(p.1)
}

/// The token stream of the canonical rendering: `k`, `=`, `v` for each pair.
pub open spec fn pair_tokens(pairs: Seq<(Seq<char>, Seq<char>)>) -> Seq<Seq<char>>
    decreases pairs.len(),
{
    if pairs.len() == 0 {
        Seq::empty()
    } else {
        seq![pairs[0].0, seq!['='], pairs[0].1] + pair_tokens(
            pairs.subrange(1, pairs.len() as int),
        )
    }
}

/// The canonical flat rendering of the pairs: their tokens joined by spaces.
pub open spec fn render_spec(pairs: Seq<(Seq<char>, Seq<char>)>) -> Seq<char> {
    join_spec(pair_tokens(pairs))
}

/// All pairs inserted into `acc`, left to right.
pub open spec fn insert_all(
    pairs: Seq<(Seq<char>, Seq<char>)>,
    acc: Map<Seq<char>, Seq<char>>,
) -> Map<Seq<char>, Seq<char>>
    decreases pairs.len(),
{
    if pairs.len() == 0 {
        acc
    } else {
        insert_all(pairs.subrange(1, pairs.len() as int), acc.insert(pairs[0].0, pairs[0].1))
    }
}

/// `insert_all` can equally be computed by inserting the last pair last.
proof fn lemma_insert_all_unsnoc(pairs: Seq<(Seq<char>, Seq<char>)>, acc: Map<Seq<char>, Seq<char>>)
    requires
        pairs.len() > 0,
    ensures
        insert_all(pairs, acc) == insert_all(pairs.drop_last(), acc).insert(
            pairs.last().0,
            pairs.last().1,
        ),
    decreases pairs.len(),
{
    let tail = pairs.subrange(1, pairs.len() as int);
    if pairs.len() == 1 {
        assert(pairs.drop_last() =~= Seq::<(Seq<char>, Seq<char>)>::empty());
        assert(tail =~= Seq::<(Seq<char>, Seq<char>)>::empty());
        assert(insert_all(pairs, acc) == insert_all(tail, acc.insert(pairs[0].0, pairs[0].1)));
        assert(insert_all(tail, acc.insert(pairs[0].0, pairs[0].1)) == acc.insert(
            pairs[0].0,
            pairs[0].1,
        ));
        assert(insert_all(pairs.drop_last(), acc) == acc);
        assert(pairs.last() == pairs[0]);
    } else {
        let acc1 = acc.insert(pairs[0].0, pairs[0].1);
        lemma_insert_all_unsnoc(tail, acc1);
        assert(tail.drop_last() =~= pairs.drop_last().subrange(
            1,
            pairs.drop_last().len() as int,
        ));
        assert(tail.last() == pairs.last());
        assert(pairs.drop_last()[0] == pairs[0]);
        assert(insert_all(pairs, acc) == insert_all(tail, acc1));
        assert(insert_all(pairs.drop_last(), acc) == insert_all(tail.drop_last(), acc1));
    }
}

/// Inserting all pairs into the empty mapping gives the pairs' mapping.
proof fn lemma_insert_all_entries(pairs: Seq<(Seq<char>, Seq<char>)>)
    ensures
        insert_all(pairs, Map::empty()) == entries_map(pairs),
    decreases pairs.len(),
{
    if pairs.len() > 0 {
        lemma_insert_all_unsnoc(pairs, Map::empty());
        lemma_insert_all_entries(pairs.drop_last());
    }
}

/// Scanning the canonical token stream inserts exactly the pairs, in order.
proof fn lemma_parse_go_pairs(pairs: Seq<(Seq<char>, Seq<char>)>, acc: Map<Seq<char>, Seq<char>>)
    requires
        forall|i: int| 0 <= i < pairs.len() ==> well_formed_pair(#[trigger] pairs[i]),
    ensures
        parse_go(pair_tokens(pairs), Option::None, acc) == insert_all(pairs, acc),
    decreases pairs.len(),
{
    if pairs.len() > 0 {
        let k = pairs[0].0;
        let v = pairs[0].1;
        let ts = pair_tokens(pairs);
        let tail = pairs.subrange(1, pairs.len() as int);
        assert(ts[0] == k);
        assert(ts[1] == seq!['=']);
        assert(ts[2] == v);
        let ts1 = ts.subrange(1, ts.len() as int);
        let ts2 = ts1.subrange(1, ts1.len() as int);
        let ts3 = ts2.subrange(1, ts2.len() as int);
        assert(ts1[0] == seq!['=']);
        assert(ts2[0] == v);
        assert(ts3 =~= pair_tokens(tail));
        lemma_trim_clean(k);
        lemma_trim_clean(v);
        assert(parse_go(ts, Option::None, acc) == parse_go(ts1, Option::Some(k), acc));
        assert(parse_go(ts1, Option::Some(k), acc) == parse_go(ts2, Option::Some(k), acc));
        assert(parse_go(ts2, Option::Some(k), acc) == parse_go(
            ts3,
            Option::None,
            acc.insert(k, v),
        ));
        assert forall|i: int| 0 <= i < tail.len() implies well_formed_pair(#[trigger] tail[i]) by {
            assert(tail[i] == pairs[i + 1]);
        }
        lemma_parse_go_pairs(tail, acc.insert(k, v));
    }
}

/// Every token of the canonical stream is free of whitespace characters.
proof fn lemma_pair_tokens_clean(pairs: Seq<(Seq<char>, Seq<char>)>)
    requires
        forall|i: int| 0 <= i < pairs.len() ==> well_formed_pair(#[trigger] pairs[i]),
    ensures
        pair_tokens(pairs).len() == 3 * pairs.len(),
        forall|i: int, j: int|
            0 <= i < pair_tokens(pairs).len() && 0 <= j < pair_tokens(pairs)[i].len()
                ==> pair_tokens(pairs)[i][j] != ' ',
    decreases pairs.len(),
{
    assert(!is_space_char('='));
    assert(is_space_char(' '));
    if pairs.len() > 0 {
        let tail = pairs.subrange(1, pairs.len() as int);
        assert forall|i: int| 0 <= i < tail.len() implies well_formed_pair(#[trigger] tail[i]) by {
            assert(tail[i] == pairs[i + 1]);
        }
        lemma_pair_tokens_clean(tail);
        let ts = pair_tokens(pairs);
        assert forall|i: int, j: int|
            0 <= i < ts.len() && 0 <= j < ts[i].len() implies ts[i][j] != ' ' by {
            if i >= 3 {
                assert(ts[i] == pair_tokens(tail)[i - 3]);
            } else {
                assert(ts[0] == pairs[0].0);
                assert(ts[1] == seq!['=']);
                assert(ts[2] == pairs[0].1);
            }
        }
    }
}

/// The round trip: parsing the canonical flat rendering of well-formed pairs
/// yields exactly the pairs' mapping, later pairs overwriting earlier ones —
/// so re-encoding the result reproduces the same keys and values.
pub proof fn lemma_parse_round_trip(pairs: Seq<(Seq<char>, Seq<char>)>)
    requires
        forall|i: int| 0 <= i < pairs.len() ==> well_formed_pair(#[trigger] pairs[i]),
    ensures
        parse_spec(render_spec(pairs)) == entries_map(pairs),
{
    if pairs.len() == 0 {
        let s = render_spec(pairs);
        assert(s =~= Seq::<char>::empty());
        let ts = split_spec(s);
        assert(ts =~= seq![Seq::<char>::empty()]);
        assert(ts[0].len() == 0);
        assert(ts[0] != seq!['=']);
        assert(trim_spec(ts[0]) == ts[0]);
        let rest = ts.subrange(1, ts.len() as int);
        assert(rest =~= Seq::<Seq<char>>::empty());
        let acc = Map::<Seq<char>, Seq<char>>::empty();
        assert(parse_go(rest, Option::Some(Seq::empty()), acc) == acc);
        assert(parse_go(rest, Option::None, acc) == acc);
        if is_key_spec(Seq::empty()) {
            assert(parse_go(ts, Option::None, acc) == parse_go(
                rest,
                Option::Some(Seq::empty()),
                acc,
            ));
        } else {
            assert(parse_go(ts, Option::None, acc) == parse_go(rest, Option::None, acc));
        }
        assert(parse_spec(s) == acc);
    } else {
        lemma_pair_tokens_clean(pairs);
        lemma_split_join(pair_tokens(pairs));
        lemma_parse_go_pairs(pairs, Map::empty());
        lemma_insert_all_entries(pairs);
    }
}

/// The encoding is deterministic over the denoted mapping: two well-formed
/// configuration mappings that denote the same mapping hold the same entries,
/// and so encode to the same query string. In particular, any two parses that
/// yield the same mapping re-encode identically.
pub proof fn lemma_querystring_deterministic(a: ConfigMap, b: ConfigMap)
    requires
        a.wf(),
        b.wf(),
        a@ == b@,
    ensures
        a.entries_view() == b.entries_view(),
        encode_spec(a.entries_view()) == encode_spec(b.entries_view()),
{
    lemma_entries_map_unique(a.entries_view(), b.entries_view());
}

} // verus!
