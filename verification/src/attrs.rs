use vstd::prelude::*;

use regex::Regex;

verus! {

/// Name for regex's word-character class: whether a character belongs to
/// the Unicode class the attribute-name pattern accepts.
pub uninterp spec fn is_word_char(c: char) -> bool;

/// End of the maximal run of word characters that starts at `i`.
pub open spec fn word_run(s: Seq<char>, i: int) -> int
    decreases s.len() - i,
{
    if 0 <= i && i < s.len() && is_word_char(s[i]) {
        word_run(s, i + 1)
    } else {
        i
    }
}

/// Position of the first double quote at or after `i`.
pub open spec fn find_quote(s: Seq<char>, i: int) -> Option<int>
    decreases s.len() - i,
{
    if i < s.len() {
        if s[i] == '"' {
            Some(i)
        } else {
            find_quote(s, i + 1)
        }
    } else {
        None
    }
}

pub proof fn lemma_word_run(s: Seq<char>, i: int)
    requires
        0 <= i <= s.len(),
    ensures
        i <= word_run(s, i) <= s.len(),
    decreases s.len() - i,
{
    if i < s.len() && is_word_char(s[i]) {
        lemma_word_run(s, i + 1);
    }
}

pub proof fn lemma_find_quote(s: Seq<char>, i: int)
    requires
        0 <= i <= s.len(),
    ensures
        find_quote(s, i) matches Some(q) ==> i <= q < s.len() && s[q] == '"',
    decreases s.len() - i,
{
    if i < s.len() && s[i] != '"' {
        lemma_find_quote(s, i + 1);
    }
}

/// The attribute pairs found at or after `i`: a name of one or more word
/// characters, immediately `="`, then the shortest value closed by the next
/// double quote. Where no attribute starts at `i` the scan moves on by one
/// character; a match continues after its closing quote.
pub open spec fn attrs_from(s: Seq<char>, i: int) -> Seq<(Seq<char>, Seq<char>)>
    decreases s.len() - i,
    via attrs_from_dec
{
    if !(0 <= i && i < s.len()) {
        Seq::empty()
    } else {
        let e = word_run(s, i);
        if e > i && e + 1 < s.len() && s[e] == '=' && s[e + 1] == '"' {
            match find_quote(s, e + 2) {
                Some(q) => seq![(s.subrange(i, e), s.subrange(e + 2, q))] + attrs_from(s, q + 1),
                None => Seq::empty(),
            }
        } else {
            attrs_from(s, i + 1)
        }
    }
}

#[via_fn]
proof fn attrs_from_dec(s: Seq<char>, i: int) {
    if 0 <= i && i < s.len() {
        lemma_word_run(s, i);
        let e = word_run(s, i);
        if e + 1 < s.len() {
            lemma_find_quote(s, e + 2);
        }
    }
}

/// The value of the last attribute with the given name; the last one wins
/// where a name repeats.
pub open spec fn attr_get(attrs: Seq<(Seq<char>, Seq<char>)>, name: Seq<char>) -> Option<Seq<char>>
    decreases attrs.len(),
{
    if attrs.len() == 0 {
        None
    } else if attrs.last().0 == name {
        Some(attrs.last().1)
    } else {
        attr_get(attrs.drop_last(), name)
    }
}

/// View of an attribute vector as the sequences its pairs hold.
pub open spec fn pairs_view(v: Seq<(Vec<char>, Vec<char>)>) -> Seq<(Seq<char>, Seq<char>)> {
    Seq::new(v.len(), |i: int| (v[i].0@, v[i].1@))
}

/// Relies on regex's `\w` character class: whether a character is a word
/// character is a function of the character alone.
#[verifier::external_body]
fn is_word_char_exec(c: char) -> (r: bool)
    ensures
        r == is_word_char(c),
{
    let mut buf = [0u8; 4];
    let s: &str = c.encode_utf8(&mut buf);
    Regex::new(r"\A\w\z").unwrap().is_match(s)
}

/// Copies the characters of `v` in `a..b`.
pub fn copy_range(v: &Vec<char>, a: usize, b: usize) -> (r: Vec<char>)
    requires
        a <= b <= v.len(),
    ensures
        r@ == v@.subrange(a as int, b as int),
{
    let mut out: Vec<char> = Vec::new();
    let mut i: usize = a;
    while i < b
        invariant
            a <= i <= b <= v.len(),
            out@ == v@.subrange(a as int, i as int),
        decreases b - i,
    {
        out.push(v[i]);
        proof {
            assert(out@ =~= v@.subrange(a as int, i + 1));
        }
        i = i + 1;
    }
    out
}

/// Extracts every `name="value"` attribute of the header text, in order.
pub fn read_keys(text: &Vec<char>) -> (r: Vec<(Vec<char>, Vec<char>)>)
    ensures
        pairs_view(r@) == attrs_from(text@, 0),
{
    let n = text.len();
    let ghost s = text@;
    let mut out: Vec<(Vec<char>, Vec<char>)> = Vec::new();
    let mut i: usize = 0;
    while i < n
        invariant
            n == text@.len(),
            s == text@,
            i <= n,
            attrs_from(s, 0) == pairs_view(out@) + attrs_from(s, i as int),
        decreases n - i,
    {
        let ghost out0 = out@;
        let mut e: usize = i;
        while e < n && is_word_char_exec(text[e])
            invariant
                n == text@.len(),
                s == text@,
                i <= e <= n,
                word_run(s, i as int) == word_run(s, e as int),
            decreases n - e,
        {
            e = e + 1;
        }
        proof {
            assert(word_run(s, e as int) == e);
            assert(word_run(s, i as int) == e);
        }
        if e > i && e < n && e + 1 < n && text[e] == '=' && text[e + 1] == '"' {
            let mut q: usize = e + 2;
            while q < n && text[q] != '"'
                invariant
                    n == text@.len(),
                    s == text@,
                    e + 2 <= q <= n,
                    find_quote(s, e + 2) == find_quote(s, q as int),
                decreases n - q,
            {
                q = q + 1;
            }
            if q < n {
                proof {
                    assert(find_quote(s, q as int) == Some(q as int));
                    assert(find_quote(s, e + 2) == Some(q as int));
                }
                let namev = copy_range(text, i, e);
                let valv = copy_range(text, e + 2, q);
                out.push((namev, valv));
                proof {
                    let pair = (s.subrange(i as int, e as int), s.subrange(e + 2, q as int));
                    assert(attrs_from(s, i as int) =~= seq![pair] + attrs_from(s, q + 1));
                    assert(pairs_view(out@) =~= pairs_view(out0) + seq![pair]);
                    assert(pairs_view(out@) + attrs_from(s, q + 1) =~= pairs_view(out0) + attrs_from(
                        s,
                        i as int,
                    ));
                }
                i = q + 1;
            } else {
                proof {
                    assert(find_quote(s, e + 2) is None);
                    assert(attrs_from(s, i as int) =~= Seq::<(Seq<char>, Seq<char>)>::empty());
                    assert(attrs_from(s, n as int) =~= Seq::<(Seq<char>, Seq<char>)>::empty());
                }
                i = n;
            }
        } else {
            proof {
                assert(attrs_from(s, i as int) == attrs_from(s, i + 1));
            }
            i = i + 1;
        }
    }
    proof {
        assert(attrs_from(s, n as int) =~= Seq::<(Seq<char>, Seq<char>)>::empty());
        assert(pairs_view(out@) =~= pairs_view(out@) + attrs_from(s, n as int));
    }
    out
}

/// Looks an attribute up by name; the last occurrence wins.
pub fn attr_get_exec(attrs: &Vec<(Vec<char>, Vec<char>)>, name: &String) -> (r: Option<Vec<char>>)
    ensures
        r matches Some(v) ==> attr_get(pairs_view(attrs@), name@) == Some(v@),
        r is None <==> attr_get(pairs_view(attrs@), name@) is None,
{
    let ghost av = pairs_view(attrs@);
    proof {
        assert(av.subrange(0, attrs@.len() as int) =~= av);
    }
    let mut j: usize = attrs.len();
    while j > 0
        invariant
            av == pairs_view(attrs@),
            j <= attrs.len(),
            attr_get(av, name@) == attr_get(av.subrange(0, j as int), name@),
        decreases j,
    {
        j = j - 1;
        let key = crate::text::chars_to_string(&attrs[j].0);
        if key == *name {
            proof {
                let pre = av.subrange(0, j + 1);
                assert(pre.last() == av[j as int]);
                assert(av[j as int].0 == name@);
                assert(attr_get(pre, name@) == Some(av[j as int].1));
            }
            return Some(crate::attrs::copy_range(&attrs[j].1, 0, attrs[j].1.len()));
        }
        proof {
            let pre = av.subrange(0, j + 1);
            assert(pre.last() == av[j as int]);
            assert(pre.drop_last() =~= av.subrange(0, j as int));
            assert(attr_get(pre, name@) == attr_get(av.subrange(0, j as int), name@));
        }
    }
    proof {
        assert(av.subrange(0, 0) =~= Seq::<(Seq<char>, Seq<char>)>::empty());
    }
    None
}

} // verus!
