//! Character-level text primitives, specified over `Seq<char>`: Unicode
//! whitespace trimming, splitting at a separator character, line splitting
//! and unsigned integer parsing in a given radix.
//!
//! Executable functions work on a `Vec<char>` and a half-open index range
//! `[lo, hi)` into it, so that no intermediate copies are made.
use vstd::prelude::*;

verus! {

/// Unicode `White_Space` property: the characters that `char::is_whitespace`
/// accepts and `str::trim` removes.
pub open spec fn is_whitespace(c: char) -> bool {
    let u = c as u32;
    ||| 0x09 <= u <= 0x0d
    ||| u == 0x20
    ||| u == 0x85
    ||| u == 0xa0
    ||| u == 0x1680
    ||| 0x2000 <= u <= 0x200a
    ||| u == 0x2028
    ||| u == 0x2029
    ||| u == 0x202f
    ||| u == 0x205f
    ||| u == 0x3000
}

/// `s` without its leading whitespace.
pub open spec fn trim_start(s: Seq<char>) -> Seq<char>
    decreases s.len(),
{
    if s.len() > 0 && is_whitespace(s[0]) {
        trim_start(s.subrange(1, s.len() as int))
    } else {
        s
    }
}

/// `s` without its trailing whitespace.
pub open spec fn trim_end(s: Seq<char>) -> Seq<char>
    decreases s.len(),
{
    if s.len() > 0 && is_whitespace(s[s.len() - 1]) {
        trim_end(s.subrange(0, s.len() - 1))
    } else {
        s
    }
}

/// `str::trim`: `s` without leading and trailing whitespace.
pub open spec fn trim(s: Seq<char>) -> Seq<char> {
    trim_end(trim_start(s))
}

/// Index of the first occurrence of `c` in `s`, or `s.len()` if there is none.
pub open spec fn index_of(s: Seq<char>, c: char) -> int
    decreases s.len(),
{
    if s.len() == 0 {
        0
    } else if s[0] == c {
        0
    } else {
        1 + index_of(s.subrange(1, s.len() as int), c)
    }
}

/// `str::splitn(n, c)`: at most `n` pieces, split at the first `n - 1`
/// occurrences of `c`; the last piece holds the rest of `s`.
pub open spec fn split_limit(s: Seq<char>, c: char, n: nat) -> Seq<Seq<char>>
    decreases n,
{
    let i = index_of(s, c);
    if n <= 1 || i >= s.len() {
        seq![s]
    } else {
        seq![s.subrange(0, i)] + split_limit(s.subrange(i + 1, s.len() as int), c, (n - 1) as nat)
    }
}

/// `str::split(c)`: the pieces between all occurrences of `c`.
pub open spec fn split_all(s: Seq<char>, c: char) -> Seq<Seq<char>>
    decreases s.len(),
{
    let i = index_of(s, c);
    if 0 <= i < s.len() {
        seq![s.subrange(0, i)] + split_all(s.subrange(i + 1, s.len() as int), c)
    } else {
        seq![s]
    }
}

/// A line as `str::lines` yields it: one `"\r"` before the `"\n"` that ended
/// it is removed.
pub open spec fn strip_cr(l: Seq<char>) -> Seq<char> {
    if l.len() > 0 && l[l.len() - 1] == '\r' {
        l.subrange(0, l.len() - 1)
    } else {
        l
    }
}

/// `str::lines`: the lines of `s`, split at `"\n"` or `"\r\n"`; a final line
/// ending is optional and yields no empty line after it.
pub open spec fn lines(s: Seq<char>) -> Seq<Seq<char>>
    decreases s.len(),
{
    let i = index_of(s, '\n');
    if s.len() == 0 {
        seq![]
    } else if 0 <= i < s.len() {
        seq![strip_cr(s.subrange(0, i))] + lines(s.subrange(i + 1, s.len() as int))
    } else {
        seq![s]
    }
}

/// `char::to_digit(radix)` for a radix of at most 36.
pub open spec fn digit_value(c: char, radix: nat) -> Option<nat> {
    let u = c as u32;
    let d: int = if 0x30 <= u <= 0x39 {
        u - 0x30
    } else if 0x61 <= u <= 0x7a {
        u - 0x61 + 10
    } else if 0x41 <= u <= 0x5a {
        u - 0x41 + 10
    } else {
        36
    };
    if d < radix {
        Some(d as nat)
    } else {
        None
    }
}

/// Value of the digit string `s` in `radix`, if every character is a digit.
pub open spec fn digits_value(s: Seq<char>, radix: nat) -> Option<nat>
    decreases s.len(),
{
    if s.len() == 0 {
        Some(0)
    } else {
        match (digits_value(s.subrange(0, s.len() - 1), radix), digit_value(s[s.len() - 1], radix)) {
            (Some(v), Some(d)) => Some(v * radix + d),
            _ => None,
        }
    }
}

/// `usize::from_str_radix(s, radix)`: an optional leading `+`, then at least
/// one digit, and a value that fits in a `usize`.
pub open spec fn parse_usize(s: Seq<char>, radix: nat) -> Option<usize> {
    let digits = if s.len() > 0 && s[0] == '+' {
        s.subrange(1, s.len() as int)
    } else {
        s
    };
    if digits.len() == 0 {
        None
    } else {
        match digits_value(digits, radix) {
            Some(v) => if v <= usize::MAX {
                Some(v as usize)
            } else {
                None
            },
            None => None,
        }
    }
}

/// The chars of `s` in `[lo, hi)`.
pub open spec fn range_of(s: Seq<char>, r: (usize, usize)) -> Seq<char> {
    s.subrange(r.0 as int, r.1 as int)
}

pub fn is_whitespace_char(c: char) -> (b: bool)
    ensures
        b == is_whitespace(c),
{
    let u = c as u32;
    (0x09 <= u && u <= 0x0d) || u == 0x20 || u == 0x85 || u == 0xa0 || u == 0x1680 || (0x2000
        <= u && u <= 0x200a) || u == 0x2028 || u == 0x2029 || u == 0x202f || u == 0x205f || u
        == 0x3000
}

/// The range of `s[lo..hi]` that remains after `str::trim`.
pub fn trim_range(s: &Vec<char>, lo: usize, hi: usize) -> (r: (usize, usize))
    requires
        lo <= hi <= s.len(),
    ensures
        lo <= r.0 <= r.1 <= hi,
        range_of(s@, r) == trim(s@.subrange(lo as int, hi as int)),
{
    let mut a = lo;
    while a < hi && is_whitespace_char(s[a])
        invariant
            lo <= a <= hi <= s.len(),
            trim_start(s@.subrange(lo as int, hi as int)) == trim_start(
                s@.subrange(a as int, hi as int),
            ),
        decreases hi - a,
    {
        assert(s@.subrange(a as int, hi as int).subrange(1, (hi - a) as int) =~= s@.subrange(
            a + 1,
            hi as int,
        ));
        a = a + 1;
    }
    assert(trim_start(s@.subrange(a as int, hi as int)) == s@.subrange(a as int, hi as int));
    let mut b = hi;
    while b > a && is_whitespace_char(s[b - 1])
        invariant
            lo <= a <= b <= hi <= s.len(),
            trim_end(s@.subrange(a as int, hi as int)) == trim_end(
                s@.subrange(a as int, b as int),
            ),
        decreases b - a,
    {
        assert(s@.subrange(a as int, b as int).subrange(0, (b - a - 1) as int) =~= s@.subrange(
            a as int,
            b - 1,
        ));
        b = b - 1;
    }
    (a, b)
}

/// Index of the first `c` in `s[lo..hi]`, or `hi` if there is none.
pub fn find_char(s: &Vec<char>, lo: usize, hi: usize, c: char) -> (i: usize)
    requires
        lo <= hi <= s.len(),
    ensures
        lo <= i <= hi,
        i - lo == index_of(s@.subrange(lo as int, hi as int), c),
{
    let mut i = lo;
    while i < hi && s[i] != c
        invariant
            lo <= i <= hi <= s.len(),
            index_of(s@.subrange(lo as int, hi as int), c) == (i - lo) + index_of(
                s@.subrange(i as int, hi as int),
                c,
            ),
        decreases hi - i,
    {
        assert(s@.subrange(i as int, hi as int).subrange(1, (hi - i) as int) =~= s@.subrange(
            i + 1,
            hi as int,
        ));
        i = i + 1;
    }
    i
}

pub proof fn lemma_index_of_bounds(s: Seq<char>, c: char)
    ensures
        0 <= index_of(s, c) <= s.len(),
        index_of(s, c) < s.len() ==> s[index_of(s, c)] == c,
        forall|j: int| 0 <= j < index_of(s, c) ==> s[j] != c,
    decreases s.len(),
{
    if s.len() > 0 && s[0] != c {
        let t = s.subrange(1, s.len() as int);
        lemma_index_of_bounds(t, c);
        assert forall|j: int| 0 <= j < index_of(s, c) implies s[j] != c by {
            if j > 0 {
                assert(t[j - 1] == s[j]);
            }
        }
    }
}

/// The ranges of the pieces of `str::splitn(n, c)` on `s[lo..hi]`.
pub fn split_ranges(s: &Vec<char>, lo: usize, hi: usize, c: char, n: usize) -> (r: Vec<
    (usize, usize),
>)
    requires
        lo <= hi <= s.len(),
        n >= 1,
    ensures
        r@.len() == split_limit(s@.subrange(lo as int, hi as int), c, n as nat).len(),
        forall|k: int|
            0 <= k < r@.len() ==> lo <= (#[trigger] r@[k]).0 <= r@[k].1 <= hi && range_of(s@, r@[k])
                == split_limit(s@.subrange(lo as int, hi as int), c, n as nat)[k],
{
    let ghost whole = s@.subrange(lo as int, hi as int);
    let mut r: Vec<(usize, usize)> = Vec::new();
    let mut cur = lo;
    let mut count: usize = 0;
    loop
        invariant
            lo <= cur <= hi <= s.len(),
            count < n,
            r@.len() == count,
            forall|k: int|
                0 <= k < r@.len() ==> lo <= (#[trigger] r@[k]).0 <= r@[k].1 <= cur,
            split_limit(whole, c, n as nat) == r@.map_values(|p: (usize, usize)| range_of(s@, p))
                + split_limit(s@.subrange(cur as int, hi as int), c, (n - count) as nat),
        ensures
            count + 1 >= n || index_of(s@.subrange(cur as int, hi as int), c) == hi - cur,
        decreases n - count,
    {
        let ghost rest = s@.subrange(cur as int, hi as int);
        if count + 1 >= n {
            break ;
        }
        let i = find_char(s, cur, hi, c);
        if i == hi {
            break ;
        }
        proof {
            lemma_index_of_bounds(rest, c);
            assert(rest.subrange(0, i - cur) =~= s@.subrange(cur as int, i as int));
            assert(rest.subrange(i - cur + 1, rest.len() as int) =~= s@.subrange(
                i + 1,
                hi as int,
            ));
            let old_map = r@.map_values(|p: (usize, usize)| range_of(s@, p));
            let new_map = r@.push((cur, i)).map_values(|p: (usize, usize)| range_of(s@, p));
            assert(new_map =~= old_map.push(s@.subrange(cur as int, i as int)));
            assert(split_limit(rest, c, (n - count) as nat) =~= seq![
                s@.subrange(cur as int, i as int),
            ] + split_limit(s@.subrange(i + 1, hi as int), c, (n - count - 1) as nat));
            assert(old_map + split_limit(rest, c, (n - count) as nat) =~= new_map
                + split_limit(s@.subrange(i + 1, hi as int), c, (n - count - 1) as nat));
        }
        r.push((cur, i));
        cur = i + 1;
        count = count + 1;
    }
    proof {
        let rest = s@.subrange(cur as int, hi as int);
        lemma_index_of_bounds(rest, c);
        assert(split_limit(rest, c, (n - count) as nat) =~= seq![rest]);
        let old_map = r@.map_values(|p: (usize, usize)| range_of(s@, p));
        let new_map = r@.push((cur, hi)).map_values(|p: (usize, usize)| range_of(s@, p));
        assert(new_map =~= old_map.push(rest));
        assert(old_map + seq![rest] =~= new_map);
    }
    r.push((cur, hi));
    proof {
        let m = r@.map_values(|p: (usize, usize)| range_of(s@, p));
        assert forall|k: int| 0 <= k < r@.len() implies lo <= (#[trigger] r@[k]).0 <= r@[k].1
            <= hi && range_of(s@, r@[k]) == split_limit(whole, c, n as nat)[k] by {
            assert(m[k] == range_of(s@, r@[k]));
        }
    }
    r
}

} // verus!

verus! {

/// `char::to_digit(radix)` for a radix of at most 36.
pub fn digit_of(c: char, radix: u32) -> (d: Option<u32>)
    requires
        radix <= 36,
    ensures
        match d {
            Some(x) => digit_value(c, radix as nat) == Some(x as nat),
            None => digit_value(c, radix as nat) is None,
        },
{
    let u = c as u32;
    let d: u32 = if 0x30 <= u && u <= 0x39 {
        u - 0x30
    } else if 0x61 <= u && u <= 0x7a {
        u - 0x61 + 10
    } else if 0x41 <= u && u <= 0x5a {
        u - 0x41 + 10
    } else {
        36
    };
    if d < radix {
        Some(d)
    } else {
        None
    }
}

proof fn lemma_digits_none(t: Seq<char>, radix: nat, j: int)
    requires
        0 <= j < t.len(),
        digit_value(t[j], radix) is None,
    ensures
        digits_value(t, radix) is None,
    decreases t.len(),
{
    if j < t.len() - 1 {
        let u = t.subrange(0, t.len() - 1);
        assert(u[j] == t[j]);
        lemma_digits_none(u, radix, j);
    }
}

proof fn lemma_digits_prefix(t: Seq<char>, radix: nat, k: int)
    requires
        0 <= k <= t.len(),
        radix >= 1,
        digits_value(t, radix) is Some,
    ensures
        digits_value(t.subrange(0, k), radix) is Some,
        digits_value(t.subrange(0, k), radix)->0 <= digits_value(t, radix)->0,
    decreases t.len(),
{
    if k == t.len() {
        assert(t.subrange(0, k) =~= t);
    } else {
        let u = t.subrange(0, t.len() - 1);
        lemma_digits_prefix(u, radix, k);
        assert(u.subrange(0, k) =~= t.subrange(0, k));
        let v = digits_value(u, radix)->0;
        let d = digit_value(t[t.len() - 1], radix)->0;
        assert(v * radix + d >= v) by (nonlinear_arith)
            requires
                radix >= 1,
        ;
    }
}

/// `usize::from_str_radix` on the chars `s[lo..hi]`.
pub fn parse_usize_range(s: &Vec<char>, lo: usize, hi: usize, radix: u32) -> (r: Option<usize>)
    requires
        lo <= hi <= s.len(),
        2 <= radix <= 36,
    ensures
        r == parse_usize(s@.subrange(lo as int, hi as int), radix as nat),
{
    let ghost whole = s@.subrange(lo as int, hi as int);
    let mut a = lo;
    if a < hi && s[a] == '+' {
        a = a + 1;
    }
    let ghost digits = s@.subrange(a as int, hi as int);
    assert(digits =~= (if whole.len() > 0 && whole[0] == '+' {
        whole.subrange(1, whole.len() as int)
    } else {
        whole
    }));
    if a == hi {
        return None;
    }
    let mut acc: usize = 0;
    let mut i = a;
    assert(s@.subrange(a as int, a as int) =~= Seq::<char>::empty());
    while i < hi
        invariant
            a <= i <= hi <= s.len(),
            2 <= radix <= 36,
            digits == s@.subrange(a as int, hi as int),
            whole == s@.subrange(lo as int, hi as int),
            digits == (if whole.len() > 0 && whole[0] == '+' {
                whole.subrange(1, whole.len() as int)
            } else {
                whole
            }),
            digits.len() > 0,
            digits_value(s@.subrange(a as int, i as int), radix as nat) == Some(acc as nat),
        decreases hi - i,
    {
        let ghost pre = s@.subrange(a as int, (i + 1) as int);
        assert(pre.subrange(0, pre.len() - 1) =~= s@.subrange(a as int, i as int));
        assert(pre[pre.len() - 1] == s@[i as int]);
        assert(digits.subrange(0, i + 1 - a) =~= pre);
        assert(digits[i - a] == s@[i as int]);
        let d = match digit_of(s[i], radix) {
            Some(d) => d,
            None => {
                proof {
                    lemma_digits_none(digits, radix as nat, i - a);
                }
                return None;
            },
        };
        let next = match acc.checked_mul(radix as usize) {
            Some(m) => m.checked_add(d as usize),
            None => None,
        };
        match next {
            Some(x) => {
                acc = x;
            },
            None => {
                proof {
                    if digits_value(digits, radix as nat) is Some {
                        lemma_digits_prefix(digits, radix as nat, i + 1 - a);
                    }
                }
                return None;
            },
        }
        i = i + 1;
    }
    assert(s@.subrange(a as int, i as int) =~= digits);
    Some(acc)
}

/// The chars of `text`, in order.
pub fn str_chars(text: &str) -> (v: Vec<char>)
    ensures
        v@ == text@,
{
    broadcast use vstd::string::group_string_axioms;

    let mut v: Vec<char> = Vec::new();
    for c in it: text.chars()
        invariant
            v@ == it.seq().take(it.index()),
            it.seq() == text@,
    {
        v.push(c);
    }
    v
}

} // verus!

verus! {

/// The ranges of the lines (`str::lines`) of `s[lo..hi]`.
pub fn line_ranges(s: &Vec<char>, lo: usize, hi: usize) -> (r: Vec<(usize, usize)>)
    requires
        lo <= hi <= s.len(),
    ensures
        r@.len() == lines(s@.subrange(lo as int, hi as int)).len(),
        forall|k: int|
            0 <= k < r@.len() ==> lo <= (#[trigger] r@[k]).0 <= r@[k].1 <= hi && range_of(s@, r@[k])
                == lines(s@.subrange(lo as int, hi as int))[k],
{
    let ghost whole = s@.subrange(lo as int, hi as int);
    let mut r: Vec<(usize, usize)> = Vec::new();
    let mut cur = lo;
    while cur < hi
        invariant
            lo <= cur <= hi <= s.len(),
            forall|k: int| 0 <= k < r@.len() ==> lo <= (#[trigger] r@[k]).0 <= r@[k].1 <= cur,
            lines(whole) == r@.map_values(|p: (usize, usize)| range_of(s@, p)) + lines(
                s@.subrange(cur as int, hi as int),
            ),
        decreases hi - cur,
    {
        let ghost rest = s@.subrange(cur as int, hi as int);
        let ghost old_map = r@.map_values(|p: (usize, usize)| range_of(s@, p));
        let i = find_char(s, cur, hi, '\n');
        proof {
            lemma_index_of_bounds(rest, '\n');
        }
        if i == hi {
            proof {
                assert(lines(rest) =~= seq![rest]);
                let new_map = r@.push((cur, hi)).map_values(|p: (usize, usize)| range_of(s@, p));
                assert(new_map =~= old_map.push(rest));
                assert(s@.subrange(hi as int, hi as int) =~= Seq::<char>::empty());
                assert(lines(whole) =~= new_map + lines(s@.subrange(hi as int, hi as int)));
            }
            r.push((cur, hi));
            cur = hi;
        } else {
            let end = if i > cur && s[i - 1] == '\r' {
                i - 1
            } else {
                i
            };
            proof {
                let l = rest.subrange(0, i - cur);
                assert(l =~= s@.subrange(cur as int, i as int));
                assert(strip_cr(l) =~= s@.subrange(cur as int, end as int));
                assert(rest.subrange(i - cur + 1, rest.len() as int) =~= s@.subrange(
                    i + 1,
                    hi as int,
                ));
                let new_map = r@.push((cur, end)).map_values(|p: (usize, usize)| range_of(s@, p));
                assert(new_map =~= old_map.push(s@.subrange(cur as int, end as int)));
                assert(lines(whole) =~= new_map + lines(s@.subrange(i + 1, hi as int)));
            }
            r.push((cur, end));
            cur = i + 1;
        }
    }
    proof {
        assert(s@.subrange(cur as int, hi as int) =~= Seq::<char>::empty());
        let m = r@.map_values(|p: (usize, usize)| range_of(s@, p));
        assert(lines(whole) =~= m);
        assert forall|k: int| 0 <= k < r@.len() implies lo <= (#[trigger] r@[k]).0 <= r@[k].1
            <= hi && range_of(s@, r@[k]) == lines(whole)[k] by {
            assert(m[k] == range_of(s@, r@[k]));
        }
    }
    r
}

pub proof fn lemma_split_all_nonempty(t: Seq<char>, c: char)
    ensures
        split_all(t, c).len() >= 1,
    decreases t.len(),
{
    let i = index_of(t, c);
    if 0 <= i < t.len() {
        lemma_split_all_nonempty(t.subrange(i + 1, t.len() as int), c);
    }
}

/// Splitting into exactly two pieces at every `c` is the same as splitting
/// at the first two occurrences and getting two pieces.
pub proof fn lemma_split_all_two(t: Seq<char>, c: char)
    ensures
        (split_all(t, c).len() == 2) == (split_limit(t, c, 3).len() == 2),
        split_all(t, c).len() == 2 ==> split_all(t, c) == split_limit(t, c, 3),
{
    lemma_index_of_bounds(t, c);
    let i = index_of(t, c);
    if 0 <= i < t.len() {
        let t0 = t.subrange(0, i);
        let rest = t.subrange(i + 1, t.len() as int);
        assert(split_all(t, c) == seq![t0] + split_all(rest, c));
        assert(split_limit(t, c, 3) == seq![t0] + split_limit(rest, c, 2));
        lemma_index_of_bounds(rest, c);
        let j = index_of(rest, c);
        if 0 <= j < rest.len() {
            let r0 = rest.subrange(0, j);
            let rest2 = rest.subrange(j + 1, rest.len() as int);
            lemma_split_all_nonempty(rest2, c);
            assert(split_all(rest, c) == seq![r0] + split_all(rest2, c));
            assert(split_limit(rest2, c, 1) == seq![rest2]);
            assert(split_limit(rest, c, 2) == seq![r0] + split_limit(rest2, c, 1));
            assert(split_all(t, c).len() >= 3);
            assert(split_limit(t, c, 3).len() == 3);
        } else {
            assert(split_all(rest, c) == seq![rest]);
            assert(split_limit(rest, c, 2) == seq![rest]);
        }
    } else {
        assert(split_all(t, c) == seq![t]);
        assert(split_limit(t, c, 3) == seq![t]);
    }
}

} // verus!
