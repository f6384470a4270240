//! Small verified text helpers shared by the version parser, the asset
//! selector and the view code: character classes, string comparison,
//! substring search and decimal formatting.

use vstd::prelude::*;

verus! {

/// Whether `c` is an ASCII decimal digit.
pub open spec fn is_digit(c: char) -> bool {
    '0' <= c && c <= '9'
}

/// The numeric value of a sequence of decimal digits, most significant
/// first.
pub open spec fn digits_val(s: Seq<char>) -> int
    decreases s.len(),
{
    if s.len() == 0 {
        0
    } else {
        digits_val(s.drop_last()) * 10 + (s.last() as int - '0' as int)
    }
}

/// `c` with an ASCII capital letter folded to its small form, as a code
/// point.
pub open spec fn lower_code(c: char) -> int {
    if 'A' <= c && c <= 'Z' {
        c as int + 32
    } else {
        c as int
    }
}

/// Whether `c` is ASCII whitespace (space, tab, newline, carriage return).
pub open spec fn is_space(c: char) -> bool {
    c == ' ' || c == '\t' || c == '\n' || c == '\r'
}

/// Relies on `String::push`, which vstd leaves unspecified: it appends the
/// one character to the string.
#[verifier::external_body]
pub fn push_char(s: &mut String, c: char)
    ensures
        final(s)@ == old(s)@ + seq![c],
{
    s.push(c);
}

/// Character-for-character string equality.
pub fn str_eq(a: &str, b: &str) -> (r: bool)
    ensures
        r == (a@ == b@),
{
    let alen = a.unicode_len();
    let blen = b.unicode_len();
    if alen != blen {
        proof {
            assert(a@ != b@);
        }
        return false;
    }
    let mut i: usize = 0;
    while i < alen
        invariant
            i <= alen,
            alen as nat == a@.len(),
            alen as nat == b@.len(),
            forall|j: int| 0 <= j < i ==> a@[j] == b@[j],
        decreases alen - i,
    {
        if a.get_char(i) != b.get_char(i) {
            proof {
                assert(a@[i as int] != b@[i as int]);
            }
            return false;
        }
        i += 1;
    }
    proof {
        assert(a@ =~= b@);
    }
    true
}

/// Whether `n` occurs in `h` as a contiguous run starting at some position.
pub open spec fn spec_contains(h: Seq<char>, n: Seq<char>) -> bool {
    exists|i: int| 0 <= i <= h.len() - n.len() && #[trigger] h.subrange(i, i + n.len()) == n
}

/// First position at which `needle` occurs in `hay`, scanning left to
/// right.
pub fn find_str(hay: &str, needle: &str) -> (r: Option<usize>)
    ensures
        r matches Some(i) ==> i + needle@.len() <= hay@.len() && hay@.subrange(
            i as int,
            i + needle@.len(),
        ) == needle@ && forall|i2: int|
            0 <= i2 < i ==> #[trigger] hay@.subrange(i2, i2 + needle@.len()) != needle@,
        r is None ==> !spec_contains(hay@, needle@),
{
    let hlen = hay.unicode_len();
    let nlen = needle.unicode_len();
    if nlen > hlen {
        proof {
            assert(!spec_contains(hay@, needle@));
        }
        return None;
    }
    let mut i: usize = 0;
    while i <= hlen - nlen
        invariant
            nlen <= hlen,
            i <= hlen - nlen + 1,
            hlen as nat == hay@.len(),
            nlen as nat == needle@.len(),
            forall|i2: int| 0 <= i2 < i ==> #[trigger] hay@.subrange(i2, i2 + needle@.len())
                != needle@,
        decreases hlen + 1 - i,
    {
        let mut j: usize = 0;
        let mut hit = true;
        while j < nlen
            invariant
                j <= nlen,
                i + nlen <= hlen,
                hlen as nat == hay@.len(),
                nlen as nat == needle@.len(),
                hit ==> forall|k: int| 0 <= k < j ==> hay@[i + k] == needle@[k],
                !hit ==> exists|k: int| 0 <= k < needle@.len() && hay@[i + k] != needle@[k],
            decreases nlen - j,
        {
            if hay.get_char(i + j) != needle.get_char(j) {
                hit = false;
                proof {
                    assert(hay@[i + j] != needle@[j as int]);
                }
                j = nlen;
            } else {
                j += 1;
            }
        }
        if hit {
            proof {
                assert(hay@.subrange(i as int, i + needle@.len()) =~= needle@);
            }
            return Some(i);
        }
        proof {
            let k = choose|k: int| 0 <= k < needle@.len() && hay@[i + k] != needle@[k];
            assert(hay@.subrange(i as int, i + needle@.len())[k] == hay@[i + k]);
            assert(hay@.subrange(i as int, i + needle@.len()) != needle@);
        }
        i += 1;
    }
    proof {
        assert forall|i2: int| 0 <= i2 <= hay@.len() - needle@.len() implies #[trigger] hay@
            .subrange(i2, i2 + needle@.len()) != needle@ by {
            assert(i2 < i);
        }
    }
    None
}

/// Whether `needle` occurs anywhere in `hay`.
pub fn contains_str(hay: &str, needle: &str) -> (r: bool)
    ensures
        r == spec_contains(hay@, needle@),
{
    match find_str(hay, needle) {
        Some(_) => true,
        None => false,
    }
}

/// The decimal digits of `n`, most significant first, without a sign and
/// without leading zeros (a lone zero for 0).
pub open spec fn spec_dec(n: int) -> Seq<char>
    decreases n
        when n >= 0
{
    if n < 10 {
        seq![digit_char(n)]
    } else {
        spec_dec(n / 10) + seq![digit_char(n % 10)]
    }
}

/// The character for one decimal digit.
pub open spec fn digit_char(d: int) -> char {
    if d == 0 {
        '0'
    } else if d == 1 {
        '1'
    } else if d == 2 {
        '2'
    } else if d == 3 {
        '3'
    } else if d == 4 {
        '4'
    } else if d == 5 {
        '5'
    } else if d == 6 {
        '6'
    } else if d == 7 {
        '7'
    } else if d == 8 {
        '8'
    } else {
        '9'
    }
}

/// Format `n` in decimal.
pub fn usize_to_string(n: usize) -> (r: String)
    ensures
        r@ == spec_dec(n as int),
    decreases n,
{
    if n < 10 {
        let mut s = String::new();
        push_char(&mut s, digit_of(n));
        proof {
            assert(Seq::<char>::empty() + seq![digit_char(n as int)] =~= seq![
                digit_char(n as int),
            ]);
        }
        s
    } else {
        let mut s = usize_to_string(n / 10);
        push_char(&mut s, digit_of(n % 10));
        s
    }
}

/// The character for one decimal digit, executable form.
fn digit_of(d: usize) -> (c: char)
    requires
        d < 10,
    ensures
        c == digit_char(d as int),
{
    match d {
        0 => '0',
        1 => '1',
        2 => '2',
        3 => '3',
        4 => '4',
        5 => '5',
        6 => '6',
        7 => '7',
        8 => '8',
        _ => '9',
    }
}

/// `s` with leading ASCII whitespace removed.
pub open spec fn trim_start(s: Seq<char>) -> Seq<char>
    decreases s.len(),
{
    if s.len() > 0 && is_space(s[0]) {
        trim_start(s.drop_first())
    } else {
        s
    }
}

/// `s` with trailing ASCII whitespace removed.
pub open spec fn trim_end(s: Seq<char>) -> Seq<char>
    decreases s.len(),
{
    if s.len() > 0 && is_space(s.last()) {
        trim_end(s.drop_last())
    } else {
        s
    }
}

/// `s` with leading and trailing ASCII whitespace removed.
pub open spec fn spec_trim(s: Seq<char>) -> Seq<char> {
    trim_end(trim_start(s))
}

/// Executable form of `is_space`.
pub fn is_space_char(c: char) -> (r: bool)
    ensures
        r == is_space(c),
{
    c == ' ' || c == '\t' || c == '\n' || c == '\r'
}

pub proof fn lemma_trim_start_at(s: Seq<char>, a: int)
    requires
        0 <= a <= s.len(),
        forall|j: int| 0 <= j < a ==> is_space(#[trigger] s[j]),
        a < s.len() ==> !is_space(s[a]),
    ensures
        trim_start(s) == s.skip(a),
    decreases a,
{
    if a == 0 {
        assert(s.skip(0) =~= s);
        if s.len() > 0 && is_space(s[0]) {
            assert(false);
        }
    } else {
        assert(is_space(s[0]));
        assert forall|j: int| 0 <= j < a - 1 implies is_space(#[trigger] s.drop_first()[j]) by {
            assert(s.drop_first()[j] == s[j + 1]);
        }
        assert(a - 1 < s.drop_first().len() ==> !is_space(s.drop_first()[a - 1]));
        lemma_trim_start_at(s.drop_first(), a - 1);
        assert(s.drop_first().skip(a - 1) =~= s.skip(a));
    }
}

pub proof fn lemma_trim_end_at(s: Seq<char>, b: int)
    requires
        0 <= b <= s.len(),
        forall|j: int| b <= j < s.len() ==> is_space(#[trigger] s[j]),
        b > 0 ==> !is_space(s[b - 1]),
    ensures
        trim_end(s) == s.take(b),
    decreases s.len() - b,
{
    if b == s.len() {
        assert(s.take(b) =~= s);
        if s.len() > 0 && is_space(s.last()) {
            assert(false);
        }
    } else {
        assert(is_space(s.last()));
        assert forall|j: int| b <= j < s.drop_last().len() implies is_space(
            #[trigger] s.drop_last()[j],
        ) by {
            assert(s.drop_last()[j] == s[j]);
        }
        lemma_trim_end_at(s.drop_last(), b);
        assert(s.drop_last().take(b) =~= s.take(b));
    }
}

/// Bounds of the whitespace-trimmed middle of `s[from..end)`: the returned
/// `(a, b)` satisfy `from <= a <= b <= end` and the trimmed range is
/// exactly `s[a..b)`.
pub fn trim_range(s: &str, from: usize, end: usize) -> (r: (usize, usize))
    requires
        from <= end,
        end as nat <= s@.len(),
    ensures
        from <= r.0 <= r.1 <= end,
        spec_trim(s@.subrange(from as int, end as int)) == s@.subrange(r.0 as int, r.1 as int),
{
    let mut a = from;
    while a < end && is_space_char(s.get_char(a))
        invariant
            from <= a <= end,
            end as nat <= s@.len(),
            forall|j: int| from <= j < a ==> is_space(#[trigger] s@[j]),
        decreases end - a,
    {
        a += 1;
    }
    let mut b = end;
    while b > a && is_space_char(s.get_char(b - 1))
        invariant
            a <= b <= end,
            end as nat <= s@.len(),
            forall|j: int| b <= j < end ==> is_space(#[trigger] s@[j]),
        decreases b,
    {
        b -= 1;
    }
    proof {
        let sub = s@.subrange(from as int, end as int);
        assert forall|j: int| 0 <= j < a - from implies is_space(#[trigger] sub[j]) by {
            assert(sub[j] == s@[j + from]);
        }
        if a < end {
            assert(sub[a - from] == s@[a as int]);
        }
        lemma_trim_start_at(sub, a - from);
        let sk = sub.skip(a - from);
        assert forall|j: int| b - a <= j < sk.len() implies is_space(#[trigger] sk[j]) by {
            assert(sk[j] == s@[j + a]);
        }
        if b > a {
            assert(sk[b - a - 1] == s@[b - 1]);
        }
        lemma_trim_end_at(sk, b - a);
        assert(sk.take(b - a) =~= s@.subrange(a as int, b as int));
    }
    (a, b)
}

/// First index at which `n` occurs in `h`, as a function of the two
/// sequences.
pub open spec fn spec_find(h: Seq<char>, n: Seq<char>) -> Option<int>
    decreases h.len(),
{
    if n.len() > h.len() {
        None
    } else if h.take(n.len() as int) == n {
        Some(0)
    } else if h.len() == 0 {
        None
    } else {
        match spec_find(h.drop_first(), n) {
            Some(i) => Some(i + 1),
            None => None,
        }
    }
}

pub proof fn lemma_spec_find_at(h: Seq<char>, n: Seq<char>, i: int)
    requires
        0 <= i <= h.len() - n.len(),
        h.subrange(i, i + n.len()) == n,
        forall|i2: int| 0 <= i2 < i ==> #[trigger] h.subrange(i2, i2 + n.len()) != n,
    ensures
        spec_find(h, n) == Some(i),
    decreases i,
{
    if i == 0 {
        assert(h.take(n.len() as int) =~= h.subrange(0, n.len() as int));
    } else {
        assert(h.subrange(0, 0 + n.len() as int) != n);
        assert(h.take(n.len() as int) =~= h.subrange(0, n.len() as int));
        assert forall|i2: int| 0 <= i2 < i - 1 implies #[trigger] h.drop_first().subrange(
            i2,
            i2 + n.len(),
        ) != n by {
            assert(h.drop_first().subrange(i2, i2 + n.len()) =~= h.subrange(
                i2 + 1,
                i2 + 1 + n.len(),
            ));
        }
        assert(h.drop_first().subrange(i - 1, i - 1 + n.len()) =~= h.subrange(i, i + n.len()));
        lemma_spec_find_at(h.drop_first(), n, i - 1);
    }
}

pub proof fn lemma_spec_find_none(h: Seq<char>, n: Seq<char>)
    requires
        !spec_contains(h, n),
    ensures
        spec_find(h, n) is None,
    decreases h.len(),
{
    if n.len() <= h.len() {
        assert(h.take(n.len() as int) =~= h.subrange(0, n.len() as int));
        assert(h.subrange(0, 0 + n.len() as int) == h.subrange(0, n.len() as int));
        if h.take(n.len() as int) == n {
            assert(h.subrange(0int, 0int + n.len()) == n);
            assert(spec_contains(h, n));
        }
        if h.len() > 0 {
            assert forall|i: int|
                0 <= i <= h.drop_first().len() - n.len() implies #[trigger] h.drop_first()
                .subrange(i, i + n.len()) != n by {
                assert(h.subrange(i + 1, (i + 1) + n.len()) =~= h.drop_first().subrange(
                    i,
                    i + n.len(),
                ));
                assert(h.subrange(i + 1, (i + 1) + n.len()) != n);
            }
            assert(!spec_contains(h.drop_first(), n));
            lemma_spec_find_none(h.drop_first(), n);
        }
    }
}

} // verus!
