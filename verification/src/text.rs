//! Character-level helpers on `String` and `str` used throughout the crate.

use vstd::prelude::*;

verus! {

/// Appends one character with `String::push`.
///
/// The contract claims what std documents for `String::push`: the character
/// is added at the end and nothing else changes.
#[verifier::external_body]
pub(crate) fn push_char(s: &mut String, c: char)
    ensures
        final(s)@ == old(s)@.push(c),
{
    s.push(c);
}

/// The strings of a vector, as character sequences.
pub open spec fn strings_view(v: Seq<String>) -> Seq<Seq<char>> {
    v.map_values(|s: String| s@)
}

/// The characters of `s`, in order.
pub fn chars_of(s: &str) -> (res: Vec<char>)
    ensures
        res@ == s@,
{
    let n = s.unicode_len();
    let mut res: Vec<char> = Vec::new();
    let mut i: usize = 0;
    while i < n
        invariant
            n == s@.len(),
            i <= n,
            res@ == s@.subrange(0, i as int),
        decreases n - i,
    {
        let c = s.get_char(i);
        res.push(c);
        i = i + 1;
    }
    assert(res@ == s@.subrange(0, n as int));
    res
}

/// The string made of `chars[from..to]`.
pub fn string_of_range(chars: &Vec<char>, from: usize, to: usize) -> (res: String)
    requires
        from <= to <= chars.len(),
    ensures
        res@ == chars@.subrange(from as int, to as int),
{
    let mut res = String::new();
    let mut i: usize = from;
    while i < to
        invariant
            from <= i <= to <= chars.len(),
            res@ == chars@.subrange(from as int, i as int),
        decreases to - i,
    {
        push_char(&mut res, chars[i]);
        i = i + 1;
    }
    res
}

/// `a` followed by `b`.
pub fn concat_str(a: &str, b: &str) -> (res: String)
    ensures
        res@ == a@ + b@,
{
    let mut res = a.to_owned();
    res.append(b);
    res
}

/// `a` comes before `b` in the order of their characters' code points, a
/// proper prefix first (the order of `str`, since UTF-8 keeps it).
pub open spec fn lex_lt(a: Seq<char>, b: Seq<char>) -> bool
    decreases a.len(),
{
    if a.len() == 0 {
        b.len() > 0
    } else if b.len() == 0 {
        false
    } else if a[0] != b[0] {
        (a[0] as int) < (b[0] as int)
    } else {
        lex_lt(a.drop_first(), b.drop_first())
    }
}

/// The order is strict and total.
pub proof fn lemma_lex_total(a: Seq<char>, b: Seq<char>)
    ensures
        !(lex_lt(a, b) && lex_lt(b, a)),
        !lex_lt(a, a),
        a != b ==> lex_lt(a, b) || lex_lt(b, a),
    decreases a.len(),
{
    if a.len() > 0 && b.len() > 0 {
        lemma_lex_total(a.drop_first(), b.drop_first());
        lemma_lex_total(a.drop_first(), a.drop_first());
        if a[0] == b[0] && a != b {
            assert(a =~= seq![a[0]] + a.drop_first());
            assert(b =~= seq![b[0]] + b.drop_first());
        }
        if a[0] != b[0] {
            assert((a[0] as int) != (b[0] as int));
        }
    } else if a.len() > 0 {
        lemma_lex_total(a.drop_first(), a.drop_first());
    } else if b.len() == 0 {
        assert(a =~= b);
    }
}

/// The order is transitive.
pub proof fn lemma_lex_trans(a: Seq<char>, b: Seq<char>, c: Seq<char>)
    requires
        lex_lt(a, b),
        lex_lt(b, c),
    ensures
        lex_lt(a, c),
    decreases a.len(),
{
    if a.len() > 0 && b.len() > 0 && c.len() > 0 {
        if a[0] == b[0] && b[0] == c[0] {
            lemma_lex_trans(a.drop_first(), b.drop_first(), c.drop_first());
        }
    }
}

proof fn lemma_lex_skip(a: Seq<char>, b: Seq<char>, i: int)
    requires
        0 <= i <= a.len(),
        i <= b.len(),
        forall|k: int| 0 <= k < i ==> a[k] == b[k],
    ensures
        lex_lt(a, b) == lex_lt(a.skip(i), b.skip(i)),
    decreases i,
{
    if i > 0 {
        assert(a.drop_first().skip(i - 1) =~= a.skip(i));
        assert(b.drop_first().skip(i - 1) =~= b.skip(i));
        lemma_lex_skip(a.drop_first(), b.drop_first(), i - 1);
    } else {
        assert(a.skip(0) =~= a);
        assert(b.skip(0) =~= b);
    }
}

/// Whether `a` comes before `b` (see `lex_lt`).
pub fn lex_less(a: &Vec<char>, b: &Vec<char>) -> (res: bool)
    ensures
        res == lex_lt(a@, b@),
{
    let mut i: usize = 0;
    while i < a.len() && i < b.len() && a[i] == b[i]
        invariant
            i <= a.len(),
            i <= b.len(),
            forall|k: int| 0 <= k < i ==> a@[k] == b@[k],
        decreases a.len() - i,
    {
        i = i + 1;
    }
    proof {
        lemma_lex_skip(a@, b@, i as int);
    }
    if i == a.len() {
        i < b.len()
    } else if i == b.len() {
        false
    } else {
        a[i] < b[i]
    }
}

/// Each string comes before the next.
pub open spec fn sorted_strict(v: Seq<Seq<char>>) -> bool {
    forall|i: int, j: int| 0 <= i < j < v.len() ==> lex_lt(#[trigger] v[i], #[trigger] v[j])
}

/// Adds `s` to the sorted strings `v`, where it is not there yet.
pub fn insert_sorted(v: &mut Vec<String>, s: &String)
    requires
        sorted_strict(strings_view(old(v)@)),
    ensures
        sorted_strict(strings_view(final(v)@)),
        forall|x: Seq<char>| strings_view(final(v)@).contains(x) <==> (strings_view(old(v)@).contains(x) || x == s@),
{
    let sc = chars_of(s.as_str());
    let ghost w = strings_view(v@);
    let mut p: usize = 0;
    while p < v.len() && lex_less(&chars_of(v[p].as_str()), &sc)
        invariant
            p <= v@.len(),
            w == strings_view(v@),
            sc@ == s@,
            forall|k: int| 0 <= k < p ==> lex_lt(#[trigger] w[k], s@),
        decreases v.len() - p,
    {
        p = p + 1;
    }
    if p < v.len() && v[p] == *s {
        proof {
            assert(w[p as int] == s@);
            assert forall|x: Seq<char>| w.contains(x) <==> (w.contains(x) || x == s@) by {
                if x == s@ {
                    assert(w[p as int] == x);
                }
            }
        }
        return;
    }
    proof {
        if p < v.len() {
            lemma_lex_total(w[p as int], s@);
            assert(lex_lt(s@, w[p as int]));
        }
    }
    v.insert(p, s.clone());
    proof {
        let nw = strings_view(v@);
        assert(nw =~= w.insert(p as int, s@));
        assert forall|i: int, j: int| 0 <= i < j < nw.len() implies lex_lt(#[trigger] nw[i], #[trigger] nw[j]) by {
            if i < p && j == p {
            } else if i < p && j > p {
                assert(nw[j] == w[j - 1]);
                if j - 1 > p {
                    lemma_lex_trans(s@, w[p as int], w[j - 1]);
                }
                lemma_lex_trans(w[i], s@, w[j - 1]);
            } else if i == p {
                assert(nw[j] == w[j - 1]);
                if j - 1 > p {
                    lemma_lex_trans(s@, w[p as int], w[j - 1]);
                }
            } else if i > p {
                assert(nw[i] == w[i - 1] && nw[j] == w[j - 1]);
            }
        }
        assert forall|x: Seq<char>| nw.contains(x) <==> (w.contains(x) || x == s@) by {
            if nw.contains(x) {
                let k = choose|k: int| 0 <= k < nw.len() && nw[k] == x;
                if k < p {
                    assert(w[k] == x);
                } else if k > p {
                    assert(w[k - 1] == x);
                }
            }
            if w.contains(x) {
                let k = choose|k: int| 0 <= k < w.len() && w[k] == x;
                if k < p {
                    assert(nw[k] == x);
                } else {
                    assert(nw[k + 1] == x);
                }
            }
            if x == s@ {
                assert(nw[p as int] == x);
            }
        }
    }
}

} // verus!
