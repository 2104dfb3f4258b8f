//! Line-oriented text scanning: substring search, whitespace trimming and
//! splitting report text into lines.

use vstd::prelude::*;

verus! {

/// The pattern `p` occurs in `s` starting at index `i`.
pub open spec fn occurs_at(s: Seq<char>, p: Seq<char>, i: int) -> bool {
    &&& 0 <= i
    &&& i + p.len() <= s.len()
    &&& forall|k: int| 0 <= k < p.len() ==> s[i + k] == p[k]
}

/// Index of the first occurrence of `p` in `s` at or after `i`, if any.
pub open spec fn find_from(s: Seq<char>, p: Seq<char>, i: int) -> Option<int>
    decreases s.len() - i,
{
    if i < 0 || i + p.len() > s.len() {
        None
    } else if occurs_at(s, p, i) {
        Some(i)
    } else {
        find_from(s, p, i + 1)
    }
}

/// Index of the first occurrence of `p` in `s`, if any.
pub open spec fn find(s: Seq<char>, p: Seq<char>) -> Option<int> {
    find_from(s, p, 0)
}

/// Index of the last occurrence of `p` in `s` strictly below `i`, if any.
pub open spec fn rfind_below(s: Seq<char>, p: Seq<char>, i: int) -> Option<int>
    decreases i,
{
    if i <= 0 || i + p.len() > s.len() + 1 {
        None
    } else if occurs_at(s, p, i - 1) {
        Some(i - 1)
    } else {
        rfind_below(s, p, i - 1)
    }
}

/// Index of the last occurrence of `p` in `s`, if any.
pub open spec fn rfind(s: Seq<char>, p: Seq<char>) -> Option<int> {
    rfind_below(s, p, s.len() - p.len() + 1)
}

/// The scan misses nothing: where an occurrence exists at or after `i`,
/// the search finds one.
pub proof fn lemma_find_from_complete(s: Seq<char>, p: Seq<char>, i: int, j: int)
    requires
        0 <= i <= j,
        occurs_at(s, p, j),
    ensures
        find_from(s, p, i) is Some,
    decreases j - i,
{
    if i < j && !occurs_at(s, p, i) {
        lemma_find_from_complete(s, p, i + 1, j);
    }
}

/// The scan invents nothing: what the search returns is a real
/// occurrence, the leftmost one at or after `i`.
pub proof fn lemma_find_from_sound(s: Seq<char>, p: Seq<char>, i: int)
    requires
        find_from(s, p, i) is Some,
    ensures
        i <= find_from(s, p, i).unwrap(),
        occurs_at(s, p, find_from(s, p, i).unwrap()),
        forall|k: int| i <= k < find_from(s, p, i).unwrap() ==> !occurs_at(s, p, k),
    decreases s.len() - i,
{
    if !occurs_at(s, p, i) {
        lemma_find_from_sound(s, p, i + 1);
    }
}

/// The backwards scan misses nothing: where an occurrence exists below
/// `i`, the search finds one.
pub proof fn lemma_rfind_below_complete(s: Seq<char>, p: Seq<char>, j: int, i: int)
    requires
        0 <= j < i,
        i + p.len() <= s.len() + 1,
        occurs_at(s, p, j),
    ensures
        rfind_below(s, p, i) is Some,
    decreases i,
{
    if !occurs_at(s, p, i - 1) {
        lemma_rfind_below_complete(s, p, j, i - 1);
    }
}

/// The backwards scan invents nothing: what it returns is a real
/// occurrence, the rightmost one below `i`.
pub proof fn lemma_rfind_below_sound(s: Seq<char>, p: Seq<char>, i: int)
    requires
        rfind_below(s, p, i) is Some,
    ensures
        rfind_below(s, p, i).unwrap() < i,
        occurs_at(s, p, rfind_below(s, p, i).unwrap()),
        forall|k: int| rfind_below(s, p, i).unwrap() < k < i ==> !occurs_at(s, p, k),
    decreases i,
{
    if i <= 0 || i + p.len() > s.len() + 1 {
    } else if !occurs_at(s, p, i - 1) {
        lemma_rfind_below_sound(s, p, i - 1);
    }
}

/// Does `p` occur in `line` at index `i`? Total: out-of-range indices answer no.
pub fn pattern_at(line: &str, pat: &str, i: usize) -> (r: bool)
    ensures
        r == occurs_at(line@, pat@, i as int),
{
    let n: usize = line.unicode_len();
    let m: usize = pat.unicode_len();
    if m > n || i > n - m {
        return false;
    }
    let mut k: usize = 0;
    while k < m
        invariant
            m <= n,
            i <= n - m,
            k <= m,
            n == line@.len(),
            m == pat@.len(),
            forall|q: int| 0 <= q < k ==> line@[i + q] == pat@[q],
        decreases m - k,
    {
        if line.get_char(i + k) != pat.get_char(k) {
            return false;
        }
        k += 1;
    }
    true
}

/// First occurrence of `pat` in `line`, scanning left to right.
pub fn find_pattern(line: &str, pat: &str) -> (r: Option<usize>)
    ensures
        match r {
            Some(j) => find(line@, pat@) == Some(j as int) && occurs_at(line@, pat@, j as int),
            None => find(line@, pat@) is None,
        },
{
    let n: usize = line.unicode_len();
    let m: usize = pat.unicode_len();
    if m > n {
        return None;
    }
    let mut i: usize = 0;
    while i <= n - m
        invariant
            m <= n,
            i <= n - m + 1,
            n == line@.len(),
            m == pat@.len(),
            find_from(line@, pat@, 0) == find_from(line@, pat@, i as int),
        decreases n - m + 1 - i,
    {
        if pattern_at(line, pat, i) {
            return Some(i);
        }
        i = i + 1;
    }
    None
}

/// Last occurrence of `pat` in `line`, scanning right to left.
pub fn rfind_pattern(line: &str, pat: &str) -> (r: Option<usize>)
    ensures
        match r {
            Some(j) => rfind(line@, pat@) == Some(j as int) && occurs_at(line@, pat@, j as int),
            None => rfind(line@, pat@) is None,
        },
{
    let n: usize = line.unicode_len();
    let m: usize = pat.unicode_len();
    if m > n {
        return None;
    }
    if m == 0 {
        assert(occurs_at(line@, pat@, n as int));
        return Some(n);
    }
    let mut i: usize = n - m + 1;
    while i > 0
        invariant
            0 < m <= n,
            i <= n - m + 1,
            n == line@.len(),
            m == pat@.len(),
            rfind(line@, pat@) == rfind_below(line@, pat@, i as int),
        decreases i,
    {
        if pattern_at(line, pat, i - 1) {
            return Some(i - 1);
        }
        i = i - 1;
    }
    None
}

/// Whitespace, as trimmed from around an extracted value: the characters
/// with the Unicode White_Space property.
pub open spec fn is_space(c: char) -> bool {
    let u = c as u32;
    (9 <= u && u <= 13) || u == 32 || u == 0x85 || u == 0xA0 || u == 0x1680 || (0x2000 <= u && u
        <= 0x200A) || u == 0x2028 || u == 0x2029 || u == 0x202F || u == 0x205F || u == 0x3000
}

/// `s` without its leading whitespace.
pub open spec fn trim_front(s: Seq<char>) -> Seq<char>
    decreases s.len(),
{
    if s.len() > 0 && is_space(s[0]) {
        trim_front(s.drop_first())
    } else {
        s
    }
}

/// `s` without its trailing whitespace.
pub open spec fn trim_back(s: Seq<char>) -> Seq<char>
    decreases s.len(),
{
    if s.len() > 0 && is_space(s.last()) {
        trim_back(s.drop_last())
    } else {
        s
    }
}

/// `s` without leading and trailing whitespace.
pub open spec fn spec_trim(s: Seq<char>) -> Seq<char> {
    trim_back(trim_front(s))
}

fn char_is_space(c: char) -> (r: bool)
    ensures
        r == is_space(c),
{
    let u: u32 = c as u32;
    (9 <= u && u <= 13) || u == 32 || u == 0x85 || u == 0xA0 || u == 0x1680 || (0x2000 <= u && u
        <= 0x200A) || u == 0x2028 || u == 0x2029 || u == 0x202F || u == 0x205F || u == 0x3000
}

/// Remove leading and trailing whitespace from `s`.
pub fn trim(s: &str) -> (r: &str)
    ensures
        r@ == spec_trim(s@),
{
    let n: usize = s.unicode_len();
    proof {
        assert(s@.subrange(0, n as int) =~= s@);
    }
    let mut a: usize = 0;
    while a < n && char_is_space(s.get_char(a))
        invariant
            a <= n,
            n == s@.len(),
            trim_front(s@) == trim_front(s@.subrange(a as int, n as int)),
        decreases n - a,
    {
        proof {
            assert(s@.subrange(a as int, n as int).drop_first() =~= s@.subrange(
                a as int + 1,
                n as int,
            ));
        }
        a = a + 1;
    }
    proof {
        if a < n {
            assert(trim_front(s@.subrange(a as int, n as int)) == s@.subrange(
                a as int,
                n as int,
            ));
        } else {
            assert(s@.subrange(a as int, n as int).len() == 0);
        }
    }
    let mut b: usize = n;
    while b > a && char_is_space(s.get_char(b - 1))
        invariant
            a <= b <= n,
            n == s@.len(),
            trim_front(s@) == trim_front(s@.subrange(a as int, n as int)),
            a < n ==> trim_front(s@) == s@.subrange(a as int, n as int),
            a == n ==> trim_front(s@).len() == 0,
            trim_back(trim_front(s@)) == trim_back(s@.subrange(a as int, b as int)),
        decreases b,
    {
        proof {
            assert(s@.subrange(a as int, b as int).drop_last() =~= s@.subrange(
                a as int,
                b as int - 1,
            ));
            assert(s@.subrange(a as int, b as int).last() == s@[b as int - 1]);
        }
        b = b - 1;
    }
    proof {
        if b > a {
            assert(trim_back(s@.subrange(a as int, b as int)) == s@.subrange(a as int, b as int));
        } else {
            assert(s@.subrange(a as int, b as int).len() == 0);
            assert(trim_back(s@.subrange(a as int, b as int)) =~= s@.subrange(a as int, b as int));
        }
    }
    s.substring_char(a, b)
}

/// A line's trailing carriage return, if any, is not part of the line.
pub open spec fn strip_cr(line: Seq<char>) -> Seq<char> {
    if line.len() > 0 && line.last() == '\r' {
        line.drop_last()
    } else {
        line
    }
}

/// The lines of `s`: segments between newline characters, each with a
/// trailing carriage return removed; a final segment without a newline is
/// kept as written, and a trailing newline adds no empty final line.
pub open spec fn spec_lines(s: Seq<char>) -> Seq<Seq<char>>
    decreases s.len(),
{
    if s.len() == 0 {
        Seq::empty()
    } else {
        let f = find(s, seq!['\n']);
        if f is Some && 0 <= f.unwrap() < s.len() {
            let i = f.unwrap();
            seq![strip_cr(s.subrange(0, i))] + spec_lines(s.subrange(i + 1, s.len() as int))
        } else {
            seq![s]
        }
    }
}

/// Split `text` into its lines.
pub fn split_lines<'a>(text: &'a str) -> (r: Vec<&'a str>)
    ensures
        r@.len() == spec_lines(text@).len(),
        forall|k: int| 0 <= k < r@.len() ==> r@[k]@ == spec_lines(text@)[k],
{
    proof {
        reveal_strlit("\n");
        assert("\n"@ =~= seq!['\n']);
    }
    let mut acc: Vec<&'a str> = Vec::new();
    let mut rest: &'a str = text;
    loop
        invariant
            "\n"@ =~= seq!['\n'],
            spec_lines(text@).len() == acc@.len() + spec_lines(rest@).len(),
            forall|k: int| 0 <= k < acc@.len() ==> spec_lines(text@)[k] == acc@[k]@,
            forall|k: int|
                0 <= k < spec_lines(rest@).len() ==> spec_lines(text@)[acc@.len() + k]
                    == spec_lines(rest@)[k],
        ensures
            rest@.len() == 0,
        decreases rest@.len(),
    {
        let n: usize = rest.unicode_len();
        if n == 0 {
            break;
        }
        let ghost prev = rest@;
        let ghost prev_acc = acc@;
        match find_pattern(rest, "\n") {
            Some(e) => {
                proof {
                    assert(find(prev, seq!['\n']) == Some(e as int));
                }
                let line0 = rest.substring_char(0, e);
                let llen: usize = line0.unicode_len();
                let line: &str = if llen > 0 && line0.get_char(llen - 1) == '\r' {
                    proof {
                        assert(line0@.subrange(0, llen as int - 1) =~= line0@.drop_last());
                    }
                    line0.substring_char(0, llen - 1)
                } else {
                    line0
                };
                assert(line@ == strip_cr(prev.subrange(0, e as int)));
                acc.push(line);
                rest = rest.substring_char(e + 1, n);
                proof {
                    assert(spec_lines(prev) == seq![strip_cr(prev.subrange(0, e as int))]
                        + spec_lines(rest@));
                    assert(forall|k: int|
                        0 <= k < spec_lines(rest@).len() ==> spec_lines(prev)[1 + k]
                            == spec_lines(rest@)[k]);
                    assert(spec_lines(prev)[0] == line@);
                    assert(spec_lines(text@)[prev_acc.len() as int] == spec_lines(prev)[0]);
                    assert(acc@ == prev_acc.push(line));
                    assert forall|k: int| 0 <= k < acc@.len() implies spec_lines(text@)[k]
                        == acc@[k]@ by {
                        if k < prev_acc.len() {
                            assert(acc@[k] == prev_acc[k]);
                        } else {
                            assert(k == prev_acc.len());
                        }
                    }
                }
            },
            None => {
                proof {
                    assert(find(prev, seq!['\n']) is None);
                    assert(spec_lines(prev) =~= seq![prev]);
                }
                let whole = rest;
                acc.push(whole);
                rest = rest.substring_char(n, n);
                proof {
                    assert(spec_lines(rest@) =~= Seq::<Seq<char>>::empty());
                    assert(spec_lines(text@)[prev_acc.len() as int] == spec_lines(prev)[0]);
                    assert(spec_lines(prev)[0] == prev);
                    assert(acc@ == prev_acc.push(whole));
                    assert forall|k: int| 0 <= k < acc@.len() implies spec_lines(text@)[k]
                        == acc@[k]@ by {
                        if k < prev_acc.len() {
                            assert(acc@[k] == prev_acc[k]);
                        } else {
                            assert(k == prev_acc.len());
                        }
                    }
                }
            },
        }
    }
    acc
}

} // verus!
