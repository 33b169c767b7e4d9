//! Character-level string utilities: ASCII case folding, whitespace trimming,
//! substring search, and decimal formatting, with exact specifications over
//! `Seq<char>` views.
use vstd::prelude::*;

verus! {

/// ASCII lower-casing of a single character; all others are unchanged.
pub open spec fn lower_char(c: char) -> char {
    match c {
        'A' => 'a',
        'B' => 'b',
        'C' => 'c',
        'D' => 'd',
        'E' => 'e',
        'F' => 'f',
        'G' => 'g',
        'H' => 'h',
        'I' => 'i',
        'J' => 'j',
        'K' => 'k',
        'L' => 'l',
        'M' => 'm',
        'N' => 'n',
        'O' => 'o',
        'P' => 'p',
        'Q' => 'q',
        'R' => 'r',
        'S' => 's',
        'T' => 't',
        'U' => 'u',
        'V' => 'v',
        'W' => 'w',
        'X' => 'x',
        'Y' => 'y',
        'Z' => 'z',
        _ => c,
    }
}

/// ASCII lower-casing of a whole character sequence.
pub open spec fn lower(s: Seq<char>) -> Seq<char> {
    s.map_values(|c: char| lower_char(c))
}

pub fn to_lower_char(c: char) -> (r: char)
    ensures
        r == lower_char(c),
{
    match c {
        'A' => 'a',
        'B' => 'b',
        'C' => 'c',
        'D' => 'd',
        'E' => 'e',
        'F' => 'f',
        'G' => 'g',
        'H' => 'h',
        'I' => 'i',
        'J' => 'j',
        'K' => 'k',
        'L' => 'l',
        'M' => 'm',
        'N' => 'n',
        'O' => 'o',
        'P' => 'p',
        'Q' => 'q',
        'R' => 'r',
        'S' => 's',
        'T' => 't',
        'U' => 'u',
        'V' => 'v',
        'W' => 'w',
        'X' => 'x',
        'Y' => 'y',
        'Z' => 'z',
        _ => c,
    }
}

/// `p` is a prefix of `s`.
pub open spec fn starts_with(s: Seq<char>, p: Seq<char>) -> bool {
    p.len() <= s.len() && s.subrange(0, p.len() as int) == p
}

pub fn str_eq(a: &str, b: &str) -> (r: bool)
    ensures
        r == (a@ == b@),
{
    let alen = a.unicode_len();
    let blen = b.unicode_len();
    if alen != blen {
        assert(a@.len() != b@.len());
        return false;
    }
    let mut i: usize = 0;
    while i < alen
        invariant
            alen == a@.len(),
            blen == b@.len(),
            alen == blen,
            i <= alen,
            forall|j: int| 0 <= j < i ==> a@[j] == b@[j],
        decreases alen - i,
    {
        if a.get_char(i) != b.get_char(i) {
            assert(a@[i as int] != b@[i as int]);
            return false;
        }
        i = i + 1;
    }
    assert(a@ =~= b@);
    true
}

pub fn str_starts_with(s: &str, p: &str) -> (r: bool)
    ensures
        r == starts_with(s@, p@),
{
    let slen = s.unicode_len();
    let plen = p.unicode_len();
    if plen > slen {
        return false;
    }
    let mut i: usize = 0;
    while i < plen
        invariant
            slen == s@.len(),
            plen == p@.len(),
            plen <= slen,
            i <= plen,
            forall|j: int| 0 <= j < i ==> s@[j] == p@[j],
        decreases plen - i,
    {
        if s.get_char(i) != p.get_char(i) {
            assert(s@[i as int] != p@[i as int]);
            assert(!starts_with(s@, p@)) by {
                assert(s@.subrange(0, p@.len() as int)[i as int] != p@[i as int]);
            }
            return false;
        }
        i = i + 1;
    }
    assert(s@.subrange(0, p@.len() as int) =~= p@);
    true
}

/// First index `i >= from` with `s[i] == c`, if any.
pub fn find_char_from(s: &str, from: usize, c: char) -> (r: Option<usize>)
    requires
        from <= s@.len(),
    ensures
        match r {
            Some(i) => from <= i < s@.len() && s@[i as int] == c && forall|j: int|
                from <= j < i ==> s@[j] != c,
            None => forall|j: int| from <= j < s@.len() ==> s@[j] != c,
        },
{
    let slen = s.unicode_len();
    let mut i: usize = from;
    while i < slen
        invariant
            slen == s@.len(),
            from <= i <= slen,
            forall|j: int| from <= j < i ==> s@[j] != c,
        decreases slen - i,
    {
        if s.get_char(i) == c {
            return Some(i);
        }
        i = i + 1;
    }
    None
}

/// `p` occurs in `s` at index `i`.
pub open spec fn matches_at(s: Seq<char>, p: Seq<char>, i: int) -> bool {
    0 <= i && i + p.len() <= s.len() && s.subrange(i, i + p.len() as int) == p
}

pub fn str_matches_at(s: &str, p: &str, i: usize) -> (r: bool)
    requires
        i <= s@.len(),
    ensures
        r == matches_at(s@, p@, i as int),
{
    let slen = s.unicode_len();
    let plen = p.unicode_len();
    if plen > slen - i {
        return false;
    }
    let mut k: usize = 0;
    while k < plen
        invariant
            slen == s@.len(),
            plen == p@.len(),
            i + plen <= slen,
            k <= plen,
            forall|j: int| 0 <= j < k ==> s@[i + j] == p@[j],
        decreases plen - k,
    {
        if s.get_char(i + k) != p.get_char(k) {
            assert(!matches_at(s@, p@, i as int)) by {
                assert(s@.subrange(i as int, i + p@.len() as int)[k as int] != p@[k as int]);
            }
            return false;
        }
        k = k + 1;
    }
    assert(s@.subrange(i as int, i + p@.len() as int) =~= p@);
    true
}

/// First index at which `p` occurs in `s`, if any.
pub fn find_substr(s: &str, p: &str) -> (r: Option<usize>)
    ensures
        match r {
            Some(i) => matches_at(s@, p@, i as int) && forall|j: int|
                0 <= j < i ==> !matches_at(s@, p@, j),
            None => forall|j: int| !matches_at(s@, p@, j),
        },
{
    let slen = s.unicode_len();
    let plen = p.unicode_len();
    if plen > slen {
        return None;
    }
    let mut i: usize = 0;
    loop
        invariant_except_break
            slen == s@.len(),
            plen == p@.len(),
            plen <= slen,
            i <= slen - plen,
            forall|j: int| 0 <= j < i ==> !matches_at(s@, p@, j),
        ensures
            forall|j: int| !matches_at(s@, p@, j),
        decreases slen - plen - i,
    {
        if str_matches_at(s, p, i) {
            return Some(i);
        }
        if i >= slen - plen {
            assert(forall|j: int| j > slen - plen ==> !matches_at(s@, p@, j));
            break;
        }
        i = i + 1;
    }
    None
}

/// Characters treated as whitespace by the trimming helpers.
pub open spec fn is_space_char(c: char) -> bool {
    c == ' ' || c == '\t' || c == '\r' || c == '\n'
}

pub fn char_is_space(c: char) -> (r: bool)
    ensures
        r == is_space_char(c),
{
    c == ' ' || c == '\t' || c == '\r' || c == '\n'
}

/// `s` without its leading whitespace.
pub open spec fn trim_start_spec(s: Seq<char>) -> Seq<char>
    decreases s.len(),
{
    if s.len() > 0 && is_space_char(s[0]) {
        trim_start_spec(s.drop_first())
    } else {
        s
    }
}

/// `s` without its trailing whitespace.
pub open spec fn trim_end_spec(s: Seq<char>) -> Seq<char>
    decreases s.len(),
{
    if s.len() > 0 && is_space_char(s[s.len() - 1]) {
        trim_end_spec(s.drop_last())
    } else {
        s
    }
}

/// `s` without leading and trailing whitespace.
pub open spec fn trim_spec(s: Seq<char>) -> Seq<char> {
    trim_end_spec(trim_start_spec(s))
}

pub proof fn lemma_trim_start_skip(s: Seq<char>, i: int)
    requires
        0 <= i <= s.len(),
        forall|j: int| 0 <= j < i ==> is_space_char(s[j]),
    ensures
        trim_start_spec(s) == trim_start_spec(s.subrange(i, s.len() as int)),
    decreases i,
{
    if i > 0 {
        assert(is_space_char(s[0]));
        assert(trim_start_spec(s) == trim_start_spec(s.drop_first()));
        let t = s.drop_first();
        assert(forall|j: int| 0 <= j < i - 1 ==> is_space_char(t[j]));
        lemma_trim_start_skip(t, i - 1);
        assert(t.subrange(i - 1, t.len() as int) =~= s.subrange(i, s.len() as int));
    } else {
        assert(s.subrange(0, s.len() as int) =~= s);
    }
}

proof fn lemma_trim_end_skip(s: Seq<char>, i: int)
    requires
        0 <= i <= s.len(),
        forall|j: int| i <= j < s.len() ==> is_space_char(s[j]),
    ensures
        trim_end_spec(s) == trim_end_spec(s.subrange(0, i)),
    decreases s.len() - i,
{
    if i < s.len() {
        assert(is_space_char(s[s.len() - 1]));
        assert(trim_end_spec(s) == trim_end_spec(s.drop_last()));
        let t = s.drop_last();
        assert(t =~= s.subrange(0, s.len() - 1));
        assert(forall|j: int| i <= j < t.len() ==> t[j] == s[j] && is_space_char(t[j]));
        lemma_trim_end_skip(t, i);
        assert(t.subrange(0, i) =~= s.subrange(0, i));
    } else {
        assert(s.subrange(0, s.len() as int) =~= s);
    }
}

/// Copy of `s` with leading and trailing whitespace removed.
pub fn trim_str(s: &str) -> (r: String)
    ensures
        r@ == trim_spec(s@),
{
    let slen = s.unicode_len();
    let mut a: usize = 0;
    while a < slen && char_is_space(s.get_char(a))
        invariant
            slen == s@.len(),
            a <= slen,
            forall|j: int| 0 <= j < a ==> is_space_char(s@[j]),
        decreases slen - a,
    {
        a = a + 1;
    }
    if a == slen {
        proof {
            lemma_trim_start_skip(s@, a as int);
            assert(s@.subrange(a as int, s@.len() as int) =~= Seq::<char>::empty());
            assert(trim_start_spec(Seq::<char>::empty()) =~= Seq::<char>::empty());
            assert(trim_end_spec(Seq::<char>::empty()) =~= Seq::<char>::empty());
        }
        return String::new();
    }
    let mut b: usize = slen;
    while b > a && char_is_space(s.get_char(b - 1))
        invariant
            slen == s@.len(),
            a <= b <= slen,
            forall|j: int| b <= j < slen ==> is_space_char(s@[j]),
        decreases b,
    {
        b = b - 1;
    }
    let piece = s.substring_char(a, b);
    let r = piece.to_owned();
    proof {
        lemma_trim_start_skip(s@, a as int);
        let tail = s@.subrange(a as int, s@.len() as int);
        assert(!is_space_char(tail[0]));
        assert(trim_start_spec(tail) == tail);
        lemma_trim_end_skip(tail, b - a);
        assert(tail.subrange(0, b - a) =~= s@.subrange(a as int, b as int));
        let mid = s@.subrange(a as int, b as int);
        if b > a {
            assert(!is_space_char(mid[mid.len() - 1]));
        }
        assert(trim_end_spec(mid) == mid);
    }
    r
}

/// The decimal digit character for `d` (which must be below ten).
pub open spec fn digit_char(d: int) -> char {
    if d == 0 {
        '0'
    } else if d == 1 {
        '1'
    } else if d == 2 {
        '2'
    } else if d == 3 {
        '3'
    } else if d == 4 {
        '4'
    } else if d == 5 {
        '5'
    } else if d == 6 {
        '6'
    } else if d == 7 {
        '7'
    } else if d == 8 {
        '8'
    } else {
        '9'
    }
}

/// Decimal representation of `n`, most significant digit first.
pub open spec fn dec_of(n: nat) -> Seq<char>
    decreases n,
{
    if n < 10 {
        seq![digit_char(n as int)]
    } else {
        dec_of(n / 10) + seq![digit_char((n % 10) as int)]
    }
}

fn digit_str(d: u64) -> (r: &'static str)
    requires
        d < 10,
    ensures
        r@ =~= seq![digit_char(d as int)],
{
    let r = match d {
        0u64 => "0",
        1u64 => "1",
        2u64 => "2",
        3u64 => "3",
        4u64 => "4",
        5u64 => "5",
        6u64 => "6",
        7u64 => "7",
        8u64 => "8",
        _ => "9",
    };
    proof {
        reveal_strlit("0");
        reveal_strlit("1");
        reveal_strlit("2");
        reveal_strlit("3");
        reveal_strlit("4");
        reveal_strlit("5");
        reveal_strlit("6");
        reveal_strlit("7");
        reveal_strlit("8");
        reveal_strlit("9");
    }
    r
}

/// Decimal formatting of an unsigned number.
pub fn u64_to_dec(n: u64) -> (r: String)
    ensures
        r@ == dec_of(n as nat),
    decreases n,
{
    if n < 10 {
        let mut out = String::new();
        out.append(digit_str(n));
        assert(out@ =~= dec_of(n as nat));
        out
    } else {
        let mut out = u64_to_dec(n / 10);
        out.append(digit_str(n % 10));
        assert(out@ =~= dec_of(n as nat));
        out
    }
}

/// Every character of `s` is a decimal digit.
pub open spec fn all_digits(s: Seq<char>) -> bool {
    forall|i: int| 0 <= i < s.len() ==> '0' <= #[trigger] s[i] <= '9'
}

/// Numeric value of a digit character.
pub open spec fn digit_val(c: char) -> int {
    c as int - '0' as int
}

/// Numeric value of a digit string, most significant digit first.
pub open spec fn dec_val(s: Seq<char>) -> int
    decreases s.len(),
{
    if s.len() == 0 {
        0
    } else {
        dec_val(s.drop_last()) * 10 + digit_val(s[s.len() - 1])
    }
}

pub fn char_digit(c: char) -> (r: Option<u64>)
    ensures
        ('0' <= c <= '9') == (r is Some),
        r is Some ==> r->0 == digit_val(c) && r->0 < 10,
{
    match c {
        '0' => Some(0),
        '1' => Some(1),
        '2' => Some(2),
        '3' => Some(3),
        '4' => Some(4),
        '5' => Some(5),
        '6' => Some(6),
        '7' => Some(7),
        '8' => Some(8),
        '9' => Some(9),
        _ => {
            proof {
                if '0' <= c <= '9' {
                    assert(c as int == '0' as int || c as int == '1' as int || c as int == '2' as int
                        || c as int == '3' as int || c as int == '4' as int || c as int == '5' as int
                        || c as int == '6' as int || c as int == '7' as int || c as int == '8' as int
                        || c as int == '9' as int);
                }
            }
            None
        },
    }
}

/// Parse a non-empty all-digit string as a `u64`; `None` on any other input
/// or when the value does not fit.
pub fn parse_u64(s: &str) -> (r: Option<u64>)
    ensures
        match r {
            Some(v) => s@.len() > 0 && all_digits(s@) && v == dec_val(s@),
            None => s@.len() == 0 || !all_digits(s@) || dec_val(s@) > u64::MAX,
        },
{
    let slen = s.unicode_len();
    if slen == 0 {
        return None;
    }
    let mut acc: u64 = 0;
    let mut i: usize = 0;
    while i < slen
        invariant
            slen == s@.len(),
            i <= slen,
            all_digits(s@.subrange(0, i as int)),
            acc == dec_val(s@.subrange(0, i as int)),
        decreases slen - i,
    {
        let c = s.get_char(i);
        proof {
            assert(s@.subrange(0, i + 1).drop_last() =~= s@.subrange(0, i as int));
        }
        match char_digit(c) {
            Some(d) => {
                let grown = match acc.checked_mul(10) {
                    Some(m) => m.checked_add(d),
                    None => None,
                };
                match grown {
                    Some(v) => {
                        acc = v;
                    },
                    None => {
                        proof {
                            if all_digits(s@) {
                                let q = s@.subrange(0, i + 1);
                                assert(dec_val(q) == acc * 10 + d);
                                lemma_dec_val_monotonic(q, s@);
                            }
                        }
                        return None;
                    },
                }
            },
            None => {
                assert(!all_digits(s@)) by {
                    assert(!('0' <= s@[i as int] <= '9'));
                }
                return None;
            },
        }
        i = i + 1;
    }
    proof {
        assert(s@.subrange(0, slen as int) =~= s@);
    }
    Some(acc)
}

proof fn lemma_dec_val_nonneg(s: Seq<char>)
    requires
        all_digits(s),
    ensures
        dec_val(s) >= 0,
    decreases s.len(),
{
    if s.len() > 0 {
        assert(all_digits(s.drop_last()));
        lemma_dec_val_nonneg(s.drop_last());
    }
}

/// A digit-string prefix never has a larger value than the whole string.
proof fn lemma_dec_val_monotonic(p: Seq<char>, s: Seq<char>)
    requires
        all_digits(s),
        p.len() <= s.len(),
        p =~= s.subrange(0, p.len() as int),
    ensures
        dec_val(p) <= dec_val(s),
    decreases s.len() - p.len(),
{
    if p.len() < s.len() {
        let q = s.subrange(0, p.len() as int + 1);
        assert(q.drop_last() =~= p);
        assert(all_digits(q));
        lemma_dec_val_nonneg(p);
        assert(digit_val(q[q.len() - 1]) >= 0);
        assert(dec_val(q) == dec_val(p) * 10 + digit_val(q[q.len() - 1]));
        lemma_dec_val_monotonic(q, s);
    } else {
        assert(p =~= s);
    }
}

} // verus!

verus! {

/// First index `>= from` holding `c`, or -1 when there is none.
pub open spec fn index_of_from(s: Seq<char>, c: char, from: int) -> int
    decreases s.len() - from,
{
    if from < 0 || from >= s.len() {
        -1
    } else if s[from] == c {
        from
    } else {
        index_of_from(s, c, from + 1)
    }
}

pub proof fn lemma_index_of_from_found(s: Seq<char>, c: char, from: int, i: int)
    requires
        0 <= from <= i < s.len(),
        s[i] == c,
        forall|j: int| from <= j < i ==> s[j] != c,
    ensures
        index_of_from(s, c, from) == i,
    decreases i - from,
{
    if from < i {
        lemma_index_of_from_found(s, c, from + 1, i);
    }
}

pub proof fn lemma_index_of_from_missing(s: Seq<char>, c: char, from: int)
    requires
        0 <= from,
        forall|j: int| from <= j < s.len() ==> s[j] != c,
    ensures
        index_of_from(s, c, from) == -1,
    decreases s.len() - from,
{
    if from < s.len() {
        lemma_index_of_from_missing(s, c, from + 1);
    }
}

/// First index `>= from` at which `p` occurs in `s`, or -1 when none.
pub open spec fn index_of_seq_from(s: Seq<char>, p: Seq<char>, from: int) -> int
    decreases s.len() + 1 - from,
{
    if from < 0 || from + p.len() > s.len() {
        -1
    } else if matches_at(s, p, from) {
        from
    } else {
        index_of_seq_from(s, p, from + 1)
    }
}

pub proof fn lemma_index_of_seq_found(s: Seq<char>, p: Seq<char>, i: int)
    requires
        matches_at(s, p, i),
        forall|j: int| 0 <= j < i ==> !matches_at(s, p, j),
    ensures
        index_of_seq_from(s, p, 0) == i,
{
    lemma_index_of_seq_found_from(s, p, 0, i);
}

proof fn lemma_index_of_seq_found_from(s: Seq<char>, p: Seq<char>, from: int, i: int)
    requires
        0 <= from <= i,
        matches_at(s, p, i),
        forall|j: int| from <= j < i ==> !matches_at(s, p, j),
    ensures
        index_of_seq_from(s, p, from) == i,
    decreases i - from,
{
    if from < i {
        lemma_index_of_seq_found_from(s, p, from + 1, i);
    }
}

pub proof fn lemma_index_of_seq_missing(s: Seq<char>, p: Seq<char>)
    requires
        forall|j: int| !matches_at(s, p, j),
    ensures
        index_of_seq_from(s, p, 0) == -1,
{
    lemma_index_of_seq_missing_from(s, p, 0);
}

proof fn lemma_index_of_seq_missing_from(s: Seq<char>, p: Seq<char>, from: int)
    requires
        0 <= from,
        forall|j: int| !matches_at(s, p, j),
    ensures
        index_of_seq_from(s, p, from) == -1,
    decreases s.len() + 1 - from,
{
    if from + p.len() <= s.len() {
        lemma_index_of_seq_missing_from(s, p, from + 1);
    }
}

} // verus!

verus! {

/// Whether `p` (already lower-case) is a prefix of `s` after ASCII
/// case-folding of `s`.
pub fn str_starts_with_lower(s: &str, p: &str) -> (r: bool)
    ensures
        r == starts_with(lower(s@), p@),
{
    let slen = s.unicode_len();
    let plen = p.unicode_len();
    if plen > slen {
        assert(lower(s@).len() == s@.len());
        return false;
    }
    let mut i: usize = 0;
    while i < plen
        invariant
            slen == s@.len(),
            plen == p@.len(),
            plen <= slen,
            i <= plen,
            forall|j: int| 0 <= j < i ==> lower_char(s@[j]) == p@[j],
        decreases plen - i,
    {
        if to_lower_char(s.get_char(i)) != p.get_char(i) {
            assert(lower(s@)[i as int] != p@[i as int]);
            assert(!starts_with(lower(s@), p@)) by {
                assert(lower(s@).subrange(0, p@.len() as int)[i as int] != p@[i as int]);
            }
            return false;
        }
        i = i + 1;
    }
    assert(lower(s@).subrange(0, p@.len() as int) =~= p@);
    true
}

} // verus!

verus! {

/// `s` without its leading slashes.
pub open spec fn strip_slashes_spec(s: Seq<char>) -> Seq<char>
    decreases s.len(),
{
    if s.len() > 0 && s[0] == '/' {
        strip_slashes_spec(s.drop_first())
    } else {
        s
    }
}

pub proof fn lemma_strip_slashes_skip(s: Seq<char>, i: int)
    requires
        0 <= i <= s.len(),
        forall|j: int| 0 <= j < i ==> s[j] == '/',
        i == s.len() || s[i] != '/',
    ensures
        strip_slashes_spec(s) == s.subrange(i, s.len() as int),
    decreases i,
{
    if i > 0 {
        assert(s[0] == '/');
        let t = s.drop_first();
        assert(forall|j: int| 0 <= j < i - 1 ==> t[j] == s[j + 1] && t[j] == '/');
        lemma_strip_slashes_skip(t, i - 1);
        assert(t.subrange(i - 1, t.len() as int) =~= s.subrange(i, s.len() as int));
    } else {
        assert(s.subrange(0, s.len() as int) =~= s);
    }
}

} // verus!

verus! {

/// First index `>= from` holding whitespace, or -1 when there is none.
pub open spec fn index_of_space_from(s: Seq<char>, from: int) -> int
    decreases s.len() - from,
{
    if from < 0 || from >= s.len() {
        -1
    } else if is_space_char(s[from]) {
        from
    } else {
        index_of_space_from(s, from + 1)
    }
}

/// First index `>= from` holding non-whitespace, or -1 when there is none.
pub open spec fn index_of_nonspace_from(s: Seq<char>, from: int) -> int
    decreases s.len() - from,
{
    if from < 0 || from >= s.len() {
        -1
    } else if !is_space_char(s[from]) {
        from
    } else {
        index_of_nonspace_from(s, from + 1)
    }
}

proof fn lemma_index_of_space_from_found(s: Seq<char>, from: int, i: int)
    requires
        0 <= from <= i < s.len(),
        is_space_char(s[i]),
        forall|j: int| from <= j < i ==> !is_space_char(s[j]),
    ensures
        index_of_space_from(s, from) == i,
    decreases i - from,
{
    if from < i {
        lemma_index_of_space_from_found(s, from + 1, i);
    }
}

proof fn lemma_index_of_space_from_missing(s: Seq<char>, from: int)
    requires
        0 <= from,
        forall|j: int| from <= j < s.len() ==> !is_space_char(s[j]),
    ensures
        index_of_space_from(s, from) == -1,
    decreases s.len() - from,
{
    if from < s.len() {
        lemma_index_of_space_from_missing(s, from + 1);
    }
}

proof fn lemma_index_of_nonspace_from_found(s: Seq<char>, from: int, i: int)
    requires
        0 <= from <= i < s.len(),
        !is_space_char(s[i]),
        forall|j: int| from <= j < i ==> is_space_char(s[j]),
    ensures
        index_of_nonspace_from(s, from) == i,
    decreases i - from,
{
    if from < i {
        lemma_index_of_nonspace_from_found(s, from + 1, i);
    }
}

proof fn lemma_index_of_nonspace_from_missing(s: Seq<char>, from: int)
    requires
        0 <= from,
        forall|j: int| from <= j < s.len() ==> is_space_char(s[j]),
    ensures
        index_of_nonspace_from(s, from) == -1,
    decreases s.len() - from,
{
    if from < s.len() {
        lemma_index_of_nonspace_from_missing(s, from + 1);
    }
}

/// First whitespace index at or after `from`, if any.
pub fn find_space_from(s: &str, from: usize) -> (r: Option<usize>)
    requires
        from <= s@.len(),
    ensures
        match r {
            Some(i) => from <= i < s@.len() && index_of_space_from(s@, from as int) == i
                && is_space_char(s@[i as int]),
            None => index_of_space_from(s@, from as int) == -1,
        },
{
    let slen = s.unicode_len();
    let mut i: usize = from;
    while i < slen
        invariant
            slen == s@.len(),
            from <= i <= slen,
            forall|j: int| from <= j < i ==> !is_space_char(s@[j]),
        decreases slen - i,
    {
        if char_is_space(s.get_char(i)) {
            proof {
                lemma_index_of_space_from_found(s@, from as int, i as int);
            }
            return Some(i);
        }
        i = i + 1;
    }
    proof {
        lemma_index_of_space_from_missing(s@, from as int);
    }
    None
}

/// First non-whitespace index at or after `from`, if any.
pub fn find_nonspace_from(s: &str, from: usize) -> (r: Option<usize>)
    requires
        from <= s@.len(),
    ensures
        match r {
            Some(i) => from <= i < s@.len() && index_of_nonspace_from(s@, from as int) == i
                && !is_space_char(s@[i as int]),
            None => index_of_nonspace_from(s@, from as int) == -1,
        },
{
    let slen = s.unicode_len();
    let mut i: usize = from;
    while i < slen
        invariant
            slen == s@.len(),
            from <= i <= slen,
            forall|j: int| from <= j < i ==> is_space_char(s@[j]),
        decreases slen - i,
    {
        if !char_is_space(s.get_char(i)) {
            proof {
                lemma_index_of_nonspace_from_found(s@, from as int, i as int);
            }
            return Some(i);
        }
        i = i + 1;
    }
    proof {
        lemma_index_of_nonspace_from_missing(s@, from as int);
    }
    None
}

/// `s` without its leading double quotes.
pub open spec fn strip_quotes_start(s: Seq<char>) -> Seq<char>
    decreases s.len(),
{
    if s.len() > 0 && s[0] == '"' {
        strip_quotes_start(s.drop_first())
    } else {
        s
    }
}

/// `s` without its trailing double quotes.
pub open spec fn strip_quotes_end(s: Seq<char>) -> Seq<char>
    decreases s.len(),
{
    if s.len() > 0 && s[s.len() - 1] == '"' {
        strip_quotes_end(s.drop_last())
    } else {
        s
    }
}

/// `s` with leading and trailing double quotes removed.
pub open spec fn strip_quotes_spec(s: Seq<char>) -> Seq<char> {
    strip_quotes_end(strip_quotes_start(s))
}

proof fn lemma_strip_quotes_start_skip(s: Seq<char>, i: int)
    requires
        0 <= i <= s.len(),
        forall|j: int| 0 <= j < i ==> s[j] == '"',
    ensures
        strip_quotes_start(s) == strip_quotes_start(s.subrange(i, s.len() as int)),
    decreases i,
{
    if i > 0 {
        assert(s[0] == '"');
        let t = s.drop_first();
        assert(forall|j: int| 0 <= j < i - 1 ==> t[j] == s[j + 1] && t[j] == '"');
        lemma_strip_quotes_start_skip(t, i - 1);
        assert(t.subrange(i - 1, t.len() as int) =~= s.subrange(i, s.len() as int));
    } else {
        assert(s.subrange(0, s.len() as int) =~= s);
    }
}

proof fn lemma_strip_quotes_end_skip(s: Seq<char>, i: int)
    requires
        0 <= i <= s.len(),
        forall|j: int| i <= j < s.len() ==> s[j] == '"',
    ensures
        strip_quotes_end(s) == strip_quotes_end(s.subrange(0, i)),
    decreases s.len() - i,
{
    if i < s.len() {
        assert(s[s.len() - 1] == '"');
        let t = s.drop_last();
        assert(t =~= s.subrange(0, s.len() - 1));
        assert(forall|j: int| i <= j < t.len() ==> t[j] == s[j] && t[j] == '"');
        lemma_strip_quotes_end_skip(t, i);
        assert(t.subrange(0, i) =~= s.subrange(0, i));
    } else {
        assert(s.subrange(0, s.len() as int) =~= s);
    }
}

/// Copy of `s` with leading and trailing double quotes removed.
pub fn strip_quotes(s: &str) -> (r: String)
    ensures
        r@ == strip_quotes_spec(s@),
{
    let slen = s.unicode_len();
    let mut a: usize = 0;
    while a < slen && s.get_char(a) == '"'
        invariant
            slen == s@.len(),
            a <= slen,
            forall|j: int| 0 <= j < a ==> s@[j] == '"',
        decreases slen - a,
    {
        a = a + 1;
    }
    if a == slen {
        proof {
            lemma_strip_quotes_start_skip(s@, a as int);
            assert(s@.subrange(a as int, s@.len() as int) =~= Seq::<char>::empty());
            assert(strip_quotes_start(Seq::<char>::empty()) =~= Seq::<char>::empty());
            assert(strip_quotes_end(Seq::<char>::empty()) =~= Seq::<char>::empty());
        }
        return String::new();
    }
    let mut b: usize = slen;
    while b > a && s.get_char(b - 1) == '"'
        invariant
            slen == s@.len(),
            a <= b <= slen,
            forall|j: int| b <= j < slen ==> s@[j] == '"',
        decreases b,
    {
        b = b - 1;
    }
    let r = s.substring_char(a, b).to_owned();
    proof {
        lemma_strip_quotes_start_skip(s@, a as int);
        let tail = s@.subrange(a as int, s@.len() as int);
        assert(!(tail[0] == '"'));
        assert(strip_quotes_start(tail) == tail);
        lemma_strip_quotes_end_skip(tail, b - a);
        assert(tail.subrange(0, b - a) =~= s@.subrange(a as int, b as int));
        let mid = s@.subrange(a as int, b as int);
        if b > a {
            assert(!(mid[mid.len() - 1] == '"'));
        }
        assert(strip_quotes_end(mid) == mid);
    }
    r
}

} // verus!

verus! {

/// Decimal formatting of a wide unsigned number.
pub fn u128_to_dec(n: u128) -> (r: String)
    ensures
        r@ == dec_of(n as nat),
    decreases n,
{
    if n < 10 {
        let mut out = String::new();
        out.append(digit_str((n % 10) as u64));
        assert(out@ =~= dec_of(n as nat));
        out
    } else {
        let mut out = u128_to_dec(n / 10);
        out.append(digit_str((n % 10) as u64));
        assert(out@ =~= dec_of(n as nat));
        out
    }
}

} // verus!
