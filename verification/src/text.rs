use vstd::prelude::*;

verus! {

/// Appends `c` to `s` (`String::push`).
#[verifier::external_body]
pub(crate) fn push_char(s: &mut String, c: char)
    ensures
        final(s)@ == old(s)@.push(c),
{
    s.push(c);
}

/// The characters of `s`, in order.
pub fn chars_of(s: &str) -> (v: Vec<char>)
    ensures
        v@ == s@,
{
    let mut v: Vec<char> = Vec::new();
    for c in it: s.chars()
        invariant
            it.seq() == s@,
            v@ == it.seq().take(it.index() as int),
    {
        v.push(c);
    }
    v
}

} // verus!

verus! {

/// `c` with ASCII upper-case letters mapped to lower case.
pub open spec fn ascii_lower(c: char) -> char {
    if 'A' <= c <= 'Z' {
        (((c as u32) + 32) as u8) as char
    } else {
        c
    }
}

/// `s` with ASCII upper-case letters mapped to lower case.
pub open spec fn lower(s: Seq<char>) -> Seq<char> {
    s.map_values(|c: char| ascii_lower(c))
}

pub fn to_ascii_lower(c: char) -> (r: char)
    ensures
        r == ascii_lower(c),
{
    if 'A' <= c && c <= 'Z' {
        let code: u32 = c as u32;
        assert(0x41 <= code <= 0x5a);
        ((code + 32) as u8) as char
    } else {
        c
    }
}

/// `s` starts with `p`.
pub open spec fn starts_with(s: Seq<char>, p: Seq<char>) -> bool {
    p.len() <= s.len() && s.subrange(0, p.len() as int) == p
}

/// The string whose characters are `v`.
pub fn string_from_chars(v: &Vec<char>) -> (s: String)
    ensures
        s@ == v@,
{
    let mut s = String::new();
    for i in 0..v.len()
        invariant
            s@ == v@.subrange(0, i as int),
    {
        push_char(&mut s, v[i]);
        assert(s@ =~= v@.subrange(0, i + 1));
    }
    assert(s@ =~= v@);
    s
}

/// `s` starts with `p`, character by character.
pub fn has_prefix(s: &Vec<char>, p: &Vec<char>) -> (r: bool)
    ensures
        r == starts_with(s@, p@),
{
    if p.len() > s.len() {
        return false;
    }
    for i in 0..p.len()
        invariant
            p@.len() <= s@.len(),
            forall|j: int| 0 <= j < i ==> s@[j] == p@[j],
    {
        if s[i] != p[i] {
            assert(s@.subrange(0, p@.len() as int)[i as int] != p@[i as int]);
            return false;
        }
    }
    assert(s@.subrange(0, p@.len() as int) =~= p@);
    true
}

} // verus!

verus! {

/// The decimal digit character for `d` (below ten).
pub open spec fn digit_char(d: nat) -> char {
    ((d + 48) as u8) as char
}

/// The decimal representation of `n`.
pub open spec fn decimal(n: nat) -> Seq<char>
    decreases n,
{
    if n < 10 {
        seq![digit_char(n)]
    } else {
        decimal(n / 10).push(digit_char(n % 10))
    }
}

/// Appends the decimal representation of `n` to `s`.
pub fn push_decimal(s: &mut String, n: u128)
    ensures
        final(s)@ == old(s)@ + decimal(n as nat),
    decreases n,
{
    if n >= 10 {
        push_decimal(s, n / 10);
    }
    let d: u8 = (n % 10) as u8;
    push_char(s, (d + 48) as char);
    proof {
        assert(((d + 48) as u8) as char == digit_char((n % 10) as nat));
        if n >= 10 {
            assert(decimal(n as nat) == decimal((n / 10) as nat).push(digit_char((n % 10) as nat)));
        }
        assert(final(s)@ =~= old(s)@ + decimal(n as nat));
    }
}

/// `a` followed by `b`.
pub fn concat(a: &str, b: &str) -> (r: String)
    ensures
        r@ == a@ + b@,
{
    let mut s = a.to_owned();
    s.append(b);
    s
}

} // verus!

verus! {

/// The position of the first `c` in `s`.
pub open spec fn index_of(s: Seq<char>, c: char) -> Option<int>
    decreases s.len(),
{
    if s.len() == 0 {
        None
    } else if s[0] == c {
        Some(0)
    } else {
        match index_of(s.subrange(1, s.len() as int), c) {
            Some(i) => Some(i + 1),
            None => None,
        }
    }
}

pub proof fn lemma_index_of(s: Seq<char>, c: char)
    ensures
        match index_of(s, c) {
            Some(i) => 0 <= i < s.len() && s[i] == c && forall|j: int| 0 <= j < i ==> s[j] != c,
            None => forall|j: int| 0 <= j < s.len() ==> s[j] != c,
        },
    decreases s.len(),
{
    if s.len() > 0 && s[0] != c {
        let rest = s.subrange(1, s.len() as int);
        lemma_index_of(rest, c);
        assert forall|j: int| 1 <= j < s.len() implies s[j] == rest[j - 1] by {}
    }
}

/// The pieces of `s` between the occurrences of `c` (as `str::split(c)`).
pub open spec fn split_at_char(s: Seq<char>, c: char) -> Seq<Seq<char>>
    decreases s.len(),
{
    if s.len() == 0 {
        seq![Seq::<char>::empty()]
    } else if s[0] == c {
        seq![Seq::<char>::empty()] + split_at_char(s.subrange(1, s.len() as int), c)
    } else {
        let rest = split_at_char(s.subrange(1, s.len() as int), c);
        rest.update(0, seq![s[0]] + rest[0])
    }
}

pub proof fn lemma_split_at_char_nonempty(s: Seq<char>, c: char)
    ensures
        split_at_char(s, c).len() >= 1,
    decreases s.len(),
{
    if s.len() > 0 {
        lemma_split_at_char_nonempty(s.subrange(1, s.len() as int), c);
    }
}

pub open spec fn string_views(v: Seq<String>) -> Seq<Seq<char>> {
    v.map_values(|s: String| s@)
}

/// The position of the first `c` in `v`.
pub fn find_char(v: &Vec<char>, c: char) -> (r: Option<usize>)
    ensures
        match r {
            Some(i) => index_of(v@, c) == Some(i as int),
            None => index_of(v@, c) == None::<int>,
        },
{
    proof {
        lemma_index_of(v@, c);
    }
    for i in 0..v.len()
        invariant
            forall|j: int| 0 <= j < i ==> v@[j] != c,
            match index_of(v@, c) {
                Some(k) => 0 <= k < v@.len() && v@[k] == c && forall|j: int|
                    0 <= j < k ==> v@[j] != c,
                None => forall|j: int| 0 <= j < v@.len() ==> v@[j] != c,
            },
    {
        if v[i] == c {
            return Some(i);
        }
    }
    None
}

/// The characters `v[lo..hi]` as a string.
pub fn substring(v: &Vec<char>, lo: usize, hi: usize) -> (s: String)
    requires
        lo <= hi <= v@.len(),
    ensures
        s@ == v@.subrange(lo as int, hi as int),
{
    let mut s = String::new();
    for i in lo..hi
        invariant
            hi <= v@.len(),
            s@ == v@.subrange(lo as int, i as int),
    {
        push_char(&mut s, v[i]);
        assert(s@ =~= v@.subrange(lo as int, i + 1));
    }
    s
}

/// The pieces of `s` between the occurrences of `c`.
pub fn split_on_char(s: &str, c: char) -> (r: Vec<String>)
    ensures
        string_views(r@) == split_at_char(s@, c),
{
    let v = chars_of(s);
    let n = v.len();
    let mut done: Vec<String> = Vec::new();
    let mut cur = String::new();
    proof {
        lemma_split_at_char_nonempty(v@, c);
        let d = split_at_char(v@, c);
        assert(d =~= string_views(done@) + seq![cur@ + d[0]] + d.subrange(1, d.len() as int));
        assert(v@.subrange(0, n as int) =~= v@);
    }
    for i in 0..n
        invariant
            n == v@.len(),
            v@ == s@,
            split_at_char(v@.subrange(i as int, n as int), c).len() >= 1,
            split_at_char(v@, c) == string_views(done@) + seq![
                cur@ + split_at_char(v@.subrange(i as int, n as int), c)[0],
            ] + split_at_char(v@.subrange(i as int, n as int), c).subrange(
                1,
                split_at_char(v@.subrange(i as int, n as int), c).len() as int,
            ),
    {
        let ghost t = v@.subrange(i as int, n as int);
        let ghost t1 = v@.subrange(i + 1, n as int);
        proof {
            assert(t.subrange(1, t.len() as int) =~= t1);
            lemma_split_at_char_nonempty(t1, c);
        }
        let x = v[i];
        if x == c {
            proof {
                let d1 = split_at_char(t1, c);
                assert(split_at_char(t, c) == seq![Seq::<char>::empty()] + d1);
                assert(split_at_char(t, c)[0] =~= Seq::<char>::empty());
                assert(split_at_char(t, c).subrange(1, split_at_char(t, c).len() as int) =~= d1);
                assert(split_at_char(v@, c) =~= string_views(done@.push(cur)) + seq![
                    Seq::<char>::empty() + d1[0],
                ] + d1.subrange(1, d1.len() as int));
            }
            done.push(cur);
            cur = String::new();
        } else {
            proof {
                let d1 = split_at_char(t1, c);
                assert(split_at_char(t, c) == d1.update(0, seq![x] + d1[0]));
                assert(split_at_char(t, c)[0] == seq![x] + d1[0]);
                assert(cur@ + split_at_char(t, c)[0] =~= cur@.push(x) + d1[0]);
                assert(split_at_char(t, c).subrange(1, split_at_char(t, c).len() as int) =~= d1.subrange(
                    1,
                    d1.len() as int,
                ));
            }
            push_char(&mut cur, x);
        }
    }
    proof {
        assert(v@.subrange(n as int, n as int) =~= Seq::<char>::empty());
        assert(split_at_char(v@, c) =~= string_views(done@.push(cur)));
    }
    done.push(cur);
    done
}

} // verus!
