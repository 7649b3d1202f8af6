//! Character and string helpers: the whitespace set used for trimming,
//! lexicographic order on character sequences, and splitting a string on
//! single-space boundaries.

use vstd::prelude::*;

verus! {

/// The characters that count as whitespace when a token is trimmed
/// (the Unicode white-space set).
pub open spec fn is_space_char(c: char) -> bool {
    let u = c as u32;
    u == 0x20 || (0x09 <= u && u <= 0x0D) || u == 0x85 || u == 0xA0 || u == 0x1680 || (0x2000
        <= u && u <= 0x200A) || u == 0x2028 || u == 0x2029 || u == 0x202F || u == 0x205F || u
        == 0x3000
}

/// Decides whether `c` counts as whitespace for trimming.
pub fn is_space(c: char) -> (r: bool)
    ensures
        r == is_space_char(c),
{
    let u: u32 = c as u32;
    u == 0x20 || (0x09 <= u && u <= 0x0D) || u == 0x85 || u == 0xA0 || u == 0x1680 || (0x2000
        <= u && u <= 0x200A) || u == 0x2028 || u == 0x2029 || u == 0x202F || u == 0x205F || u
        == 0x3000
}

/// Decides whether two string slices hold the same characters.
pub fn str_eq(a: &str, b: &str) -> (r: bool)
    ensures
        r == (a@ == b@),
{
    let n: usize = a.unicode_len();
    let m: usize = b.unicode_len();
    if n != m {
        return false;
    }
    let mut i: usize = 0;
    while i < n
        invariant
            i <= n,
            n == a@.len(),
            n == b@.len(),
            forall|j: int| 0 <= j < i ==> a@[j] == b@[j],
        decreases n - i,
    {
        if a.get_char(i) != b.get_char(i) {
            return false;
        }
        i = i + 1;
    }
    proof {
        assert(a@ =~= b@);
    }
    true
}

/// Two characters with the same code point are the same character.
pub proof fn lemma_char_code_inj(x: char, y: char)
    requires
        x as u32 == y as u32,
    ensures
        x == y,
{
    assert((x as u32) as char == x);
    assert((y as u32) as char == y);
}

/// Lexicographic order on character sequences, comparing code points.
pub open spec fn str_lt(a: Seq<char>, b: Seq<char>) -> bool
    decreases a.len(),
{
    if b.len() == 0 {
        false
    } else if a.len() == 0 {
        true
    } else if (a[0] as u32) < (b[0] as u32) {
        true
    } else if (a[0] as u32) > (b[0] as u32) {
        false
    } else {
        str_lt(a.subrange(1, a.len() as int), b.subrange(1, b.len() as int))
    }
}

/// Of two character sequences, either one is strictly below the other or they
/// are equal.
pub proof fn lemma_str_lt_trichotomy(a: Seq<char>, b: Seq<char>)
    ensures
        str_lt(a, b) || str_lt(b, a) || a == b,
    decreases a.len(),
{
    if a.len() == 0 && b.len() == 0 {
        assert(a =~= b);
    } else if a.len() > 0 && b.len() > 0 && (a[0] as u32) == (b[0] as u32) {
        let a1 = a.subrange(1, a.len() as int);
        let b1 = b.subrange(1, b.len() as int);
        lemma_str_lt_trichotomy(a1, b1);
        if !str_lt(a, b) && !str_lt(b, a) {
            assert(a1 == b1);
            lemma_char_code_inj(a[0], b[0]);
            assert(a.len() == b.len());
            assert forall|i: int| 0 <= i < a.len() implies a[i] == b[i] by {
                if i > 0 {
                    assert(a[i] == a1[i - 1]);
                    assert(b[i] == b1[i - 1]);
                }
            }
            assert(a =~= b);
        }
    }
}

/// The order is strict: a sequence is never below itself, and two sequences
/// cannot each be below the other.
pub proof fn lemma_str_lt_strict(a: Seq<char>, b: Seq<char>)
    ensures
        str_lt(a, b) ==> !str_lt(b, a) && a != b,
    decreases a.len(),
{
    if a.len() > 0 && b.len() > 0 && (a[0] as u32) == (b[0] as u32) {
        let a1 = a.subrange(1, a.len() as int);
        let b1 = b.subrange(1, b.len() as int);
        lemma_str_lt_strict(a1, b1);
        if str_lt(a, b) {
            assert(a1 != b1);
            assert(a != b) by {
                if a == b {
                    assert(a1 =~= b1);
                }
            }
        }
    }
}

/// The order is transitive.
pub proof fn lemma_str_lt_trans(a: Seq<char>, b: Seq<char>, c: Seq<char>)
    requires
        str_lt(a, b),
        str_lt(b, c),
    ensures
        str_lt(a, c),
    decreases a.len(),
{
    if a.len() > 0 && b.len() > 0 && c.len() > 0 && (a[0] as u32) == (b[0] as u32) && (b[0]
        as u32) == (c[0] as u32) {
        lemma_str_lt_trans(
            a.subrange(1, a.len() as int),
            b.subrange(1, b.len() as int),
            c.subrange(1, c.len() as int),
        );
    }
}

/// Decides whether `a` comes strictly before `b` in lexicographic order.
pub fn str_less(a: &str, b: &str) -> (r: bool)
    ensures
        r == str_lt(a@, b@),
{
    let n: usize = a.unicode_len();
    let m: usize = b.unicode_len();
    proof {
        assert(a@.skip(0) =~= a@);
        assert(b@.skip(0) =~= b@);
    }
    let mut i: usize = 0;
    loop
        invariant
            i <= n,
            i <= m,
            n == a@.len(),
            m == b@.len(),
            str_lt(a@, b@) == str_lt(a@.skip(i as int), b@.skip(i as int)),
        decreases n - i,
    {
        if i == m {
            return false;
        }
        if i == n {
            return true;
        }
        let ca: char = a.get_char(i);
        let cb: char = b.get_char(i);
        if (ca as u32) < (cb as u32) {
            return true;
        }
        if (ca as u32) > (cb as u32) {
            return false;
        }
        proof {
            let ai = a@.skip(i as int);
            let bi = b@.skip(i as int);
            assert(ai.subrange(1, ai.len() as int) =~= a@.skip(i as int + 1));
            assert(bi.subrange(1, bi.len() as int) =~= b@.skip(i as int + 1));
        }
        i = i + 1;
    }
}

/// Removes leading and trailing whitespace from a character sequence.
pub open spec fn trim_spec(s: Seq<char>) -> Seq<char>
    decreases s.len(),
{
    if s.len() == 0 {
        s
    } else if is_space_char(s[0]) {
        trim_spec(s.subrange(1, s.len() as int))
    } else if is_space_char(s[s.len() - 1]) {
        trim_spec(s.subrange(0, s.len() - 1))
    } else {
        s
    }
}

/// A sequence without any whitespace character trims to itself.
pub proof fn lemma_trim_clean(s: Seq<char>)
    requires
        forall|j: int| 0 <= j < s.len() ==> !is_space_char(s[j]),
    ensures
        trim_spec(s) == s,
{
}

/// Removes leading and trailing whitespace from a string slice.
pub fn trim(s: &str) -> (r: &str)
    ensures
        r@ == trim_spec(s@),
{
    let n: usize = s.unicode_len();
    proof {
        assert(s@.subrange(0, n as int) =~= s@);
    }
    let mut lo: usize = 0;
    while lo < n && is_space(s.get_char(lo))
        invariant
            lo <= n,
            n == s@.len(),
            trim_spec(s@) == trim_spec(s@.subrange(lo as int, n as int)),
        decreases n - lo,
    {
        proof {
            let t = s@.subrange(lo as int, n as int);
            assert(t.subrange(1, t.len() as int) =~= s@.subrange(lo as int + 1, n as int));
        }
        lo = lo + 1;
    }
    let mut hi: usize = n;
    while hi > lo && is_space(s.get_char(hi - 1))
        invariant
            lo <= hi <= n,
            n == s@.len(),
            lo < n ==> !is_space_char(s@[lo as int]),
            trim_spec(s@) == trim_spec(s@.subrange(lo as int, hi as int)),
        decreases hi - lo,
    {
        proof {
            let t = s@.subrange(lo as int, hi as int);
            assert(t.subrange(0, t.len() - 1) =~= s@.subrange(lo as int, hi as int - 1));
        }
        hi = hi - 1;
    }
    proof {
        let t = s@.subrange(lo as int, hi as int);
        assert(trim_spec(t) == t);
    }
    s.substring_char(lo, hi)
}

/// The index of the first space in `s`, or `s.len()` if there is none.
pub open spec fn first_space(s: Seq<char>) -> nat
    decreases s.len(),
{
    if s.len() == 0 {
        0
    } else if s[0] == ' ' {
        0
    } else {
        1 + first_space(s.subrange(1, s.len() as int))
    }
}

/// An index with no space before it, and a space (or the end of the
/// sequence) at it, is `first_space`.
pub proof fn lemma_first_space_at(s: Seq<char>, k: int)
    requires
        0 <= k <= s.len(),
        forall|j: int| 0 <= j < k ==> s[j] != ' ',
        k < s.len() ==> s[k] == ' ',
    ensures
        first_space(s) == k,
    decreases k,
{
    if k > 0 {
        let s1 = s.subrange(1, s.len() as int);
        assert forall|j: int| 0 <= j < k - 1 implies s1[j] != ' ' by {
            assert(s1[j] == s[j + 1]);
        }
        lemma_first_space_at(s1, k - 1);
    }
}

/// The tokens of `s`: the (possibly empty) pieces between single spaces.
pub open spec fn split_spec(s: Seq<char>) -> Seq<Seq<char>>
    decreases s.len(),
{
    let k = first_space(s);
    if k >= s.len() {
        seq![s]
    } else {
        seq![s.subrange(0, k as int)] + split_spec(s.subrange(k as int + 1, s.len() as int))
    }
}

/// Splits a string on every single space, keeping empty tokens.
pub fn split_tokens(s: &str) -> (tokens: Vec<String>)
    ensures
        tokens.deep_view() == split_spec(s@),
{
    let n: usize = s.unicode_len();
    let mut tokens: Vec<String> = Vec::new();
    let mut start: usize = 0;
    let mut i: usize = 0;
    proof {
        assert(s@.subrange(0, n as int) =~= s@);
    }
    while i < n
        invariant
            start <= i <= n,
            n == s@.len(),
            forall|j: int| start <= j < i ==> s@[j] != ' ',
            split_spec(s@) == tokens.deep_view() + split_spec(
                s@.subrange(start as int, n as int),
            ),
        decreases n - i,
    {
        let c: char = s.get_char(i);
        if c == ' ' {
            let piece: &str = s.substring_char(start, i);
            let token: String = String::from_str(piece);
            proof {
                let t = s@.subrange(start as int, n as int);
                assert forall|j: int| 0 <= j < i - start implies t[j] != ' ' by {
                    assert(t[j] == s@[start + j]);
                }
                assert(t[i - start] == ' ');
                lemma_first_space_at(t, i - start);
                assert(t.subrange(0, i - start) =~= s@.subrange(start as int, i as int));
                assert(t.subrange(i - start + 1, t.len() as int) =~= s@.subrange(
                    i as int + 1,
                    n as int,
                ));
                assert(split_spec(t) == seq![s@.subrange(start as int, i as int)] + split_spec(
                    s@.subrange(i as int + 1, n as int),
                ));
                assert(tokens.deep_view().push(token@) + split_spec(
                    s@.subrange(i as int + 1, n as int),
                ) =~= tokens.deep_view() + split_spec(t));
            }
            let ghost prior = tokens.deep_view();
            tokens.push(token);
            proof {
                assert(tokens.deep_view() =~= prior.push(token@));
            }
            start = i + 1;
        }
        i = i + 1;
    }
    let piece: &str = s.substring_char(start, n);
    let token: String = String::from_str(piece);
    proof {
        let t = s@.subrange(start as int, n as int);
        assert forall|j: int| 0 <= j < t.len() implies t[j] != ' ' by {
            assert(t[j] == s@[start + j]);
        }
        lemma_first_space_at(t, t.len() as int);
        assert(split_spec(t) == seq![t]);
        assert(tokens.deep_view().push(t) =~= tokens.deep_view() + split_spec(t));
    }
    let ghost prior = tokens.deep_view();
    tokens.push(token);
    proof {
        assert(tokens.deep_view() =~= prior.push(token@));
    }
    tokens
}

/// Joins tokens with a single space between each two.
pub open spec fn join_spec(ts: Seq<Seq<char>>) -> Seq<char>
    decreases ts.len(),
{
    if ts.len() == 0 {
        Seq::empty()
    } else if ts.len() == 1 {
        ts[0]
    } else {
        ts[0] + seq![' '] + join_spec(ts.subrange(1, ts.len() as int))
    }
}

/// Splitting a joined sequence of space-free tokens gives the tokens back.
pub proof fn lemma_split_join(ts: Seq<Seq<char>>)
    requires
        ts.len() > 0,
        forall|i: int, j: int| 0 <= i < ts.len() && 0 <= j < ts[i].len() ==> ts[i][j] != ' ',
    ensures
        split_spec(join_spec(ts)) == ts,
    decreases ts.len(),
{
    let s = join_spec(ts);
    if ts.len() == 1 {
        lemma_first_space_at(s, s.len() as int);
        assert(split_spec(s) =~= ts);
    } else {
        let rest = ts.subrange(1, ts.len() as int);
        let k = ts[0].len() as int;
        assert forall|j: int| 0 <= j < k implies s[j] != ' ' by {
            assert(s[j] == ts[0][j]);
        }
        assert(s[k] == ' ');
        lemma_first_space_at(s, k);
        assert(s.subrange(0, k) =~= ts[0]);
        assert(s.subrange(k + 1, s.len() as int) =~= join_spec(rest));
        lemma_split_join(rest);
        assert(split_spec(s) =~= ts);
    }
}

} // verus!
