//! Verified helpers over string slices: equality, prefix tests, substring
//! search, splitting, line splitting, and decimal conversion.  Contracts are
//! stated over the `Seq<char>` views of the strings involved.

use vstd::prelude::*;

verus! {

/// Character-by-character string equality.
pub fn str_eq(a: &str, b: &str) -> (r: bool)
    ensures
        r == (a@ == b@),
{
    let alen = a.unicode_len();
    let blen = b.unicode_len();
    if alen != blen {
        assert(a@.len() != b@.len());
        return false;
    }
    let mut i: usize = 0;
    while i < alen
        invariant
            alen == a@.len(),
            alen == b@.len(),
            i <= alen,
            forall|j: int| 0 <= j < i ==> a@[j] == b@[j],
        decreases alen - i,
    {
        if a.get_char(i) != b.get_char(i) {
            return false;
        }
        i = i + 1;
    }
    proof {
        assert(a@ =~= b@);
    }
    true
}

/// True when `p@` is a prefix of `s@`.
pub open spec fn spec_starts_with(s: Seq<char>, p: Seq<char>) -> bool {
    p.len() <= s.len() && s.subrange(0, p.len() as int) == p
}

/// Prefix test, character by character.
pub fn starts_with(s: &str, p: &str) -> (r: bool)
    ensures
        r == spec_starts_with(s@, p@),
{
    let slen = s.unicode_len();
    let plen = p.unicode_len();
    if plen > slen {
        return false;
    }
    let mut i: usize = 0;
    while i < plen
        invariant
            slen == s@.len(),
            plen == p@.len(),
            plen <= slen,
            i <= plen,
            forall|j: int| 0 <= j < i ==> s@[j] == p@[j],
        decreases plen - i,
    {
        if s.get_char(i) != p.get_char(i) {
            assert(s@.subrange(0, p@.len() as int)[i as int] != p@[i as int]);
            return false;
        }
        i = i + 1;
    }
    proof {
        assert(s@.subrange(0, p@.len() as int) =~= p@);
    }
    true
}

/// Index of the first occurrence of `p` inside `s`, or `-1` when there is
/// none.  The empty pattern occurs at index `0`.
pub open spec fn spec_find(s: Seq<char>, p: Seq<char>) -> int
    decreases s.len(),
{
    if p.len() == 0 {
        0
    } else if s.len() < p.len() {
        -1
    } else if s.subrange(0, p.len() as int) == p {
        0
    } else {
        let r = spec_find(s.subrange(1, s.len() as int), p);
        if r < 0 {
            -1
        } else {
            r + 1
        }
    }
}

/// `spec_find` returns the first match: a match where it points, none
/// earlier, and none at all when it returns `-1`.
pub proof fn lemma_find_first(s: Seq<char>, p: Seq<char>)
    requires
        p.len() >= 1,
    ensures
        spec_find(s, p) >= -1,
        spec_find(s, p) >= 0 ==> spec_find(s, p) + p.len() <= s.len() && s.subrange(
            spec_find(s, p),
            spec_find(s, p) + p.len(),
        ) == p,
        spec_find(s, p) >= 0 ==> forall|j: int|
            0 <= j < spec_find(s, p) ==> #[trigger] s.subrange(j, j + p.len()) != p,
        spec_find(s, p) < 0 ==> forall|j: int|
            0 <= j <= s.len() - p.len() ==> #[trigger] s.subrange(j, j + p.len()) != p,
    decreases s.len(),
{
    if s.len() < p.len() {
        // no index is valid
    } else if s.subrange(0, p.len() as int) == p {
        // match at 0, nothing earlier
    } else {
        let s1 = s.subrange(1, s.len() as int);
        lemma_find_first(s1, p);
        let f1 = spec_find(s1, p);
        if f1 < 0 {
            assert forall|j: int| 0 <= j <= s.len() - p.len() implies #[trigger] s.subrange(
                j,
                j + p.len(),
            ) != p by {
                if j > 0 {
                    assert(s1.subrange(j - 1, j - 1 + p.len()) =~= s.subrange(j, j + p.len()));
                }
            }
        } else {
            assert(spec_find(s, p) == f1 + 1);
            assert(s.subrange(f1 + 1, f1 + 1 + p.len()) =~= s1.subrange(f1, f1 + p.len()));
            assert forall|j: int| 0 <= j < f1 + 1 implies #[trigger] s.subrange(j, j + p.len())
                != p by {
                if j > 0 {
                    assert(s1.subrange(j - 1, j - 1 + p.len()) =~= s.subrange(j, j + p.len()));
                }
            }
        }
    }
}

/// Whether `p` occurs in `s` starting at character index `i`.
fn match_at(s: &str, i: usize, p: &str) -> (r: bool)
    requires
        i + p@.len() <= s@.len(),
    ensures
        r == (s@.subrange(i as int, i + p@.len()) == p@),
{
    let slen = s.unicode_len();
    let plen = p.unicode_len();
    let mut k: usize = 0;
    while k < plen
        invariant
            slen == s@.len(),
            plen == p@.len(),
            i + plen <= slen,
            k <= plen,
            forall|j: int| 0 <= j < k ==> s@[i + j] == p@[j],
        decreases plen - k,
    {
        if s.get_char(i + k) != p.get_char(k) {
            assert(s@.subrange(i as int, i + p@.len())[k as int] != p@[k as int]);
            return false;
        }
        k = k + 1;
    }
    proof {
        assert(s@.subrange(i as int, i + p@.len()) =~= p@);
    }
    true
}

/// First occurrence of `p` inside `s`, as a character index.
pub fn find_sub(s: &str, p: &str) -> (r: Option<usize>)
    requires
        p@.len() >= 1,
    ensures
        match r {
            Some(i) => spec_find(s@, p@) == i as int,
            None => spec_find(s@, p@) == -1,
        },
{
    proof {
        lemma_find_first(s@, p@);
    }
    let slen = s.unicode_len();
    let plen = p.unicode_len();
    if plen > slen {
        return None;
    }
    let mut i: usize = 0;
    while i <= slen - plen
        invariant
            slen == s@.len(),
            plen == p@.len(),
            1 <= plen <= slen,
            i <= slen - plen + 1,
            forall|j: int| 0 <= j < i ==> #[trigger] s@.subrange(j, j + p@.len()) != p@,
        decreases slen + 1 - i,
    {
        if match_at(s, i, p) {
            proof {
                lemma_find_first(s@, p@);
                let f = spec_find(s@, p@);
                if f < 0 {
                    assert(s@.subrange(i as int, i + p@.len()) != p@);
                } else if f < i {
                    assert(s@.subrange(f, f + p@.len()) == p@);
                } else if f > i {
                    assert(s@.subrange(i as int, i + p@.len()) != p@);
                }
            }
            return Some(i);
        }
        i = i + 1;
    }
    proof {
        lemma_find_first(s@, p@);
        let f = spec_find(s@, p@);
        if f >= 0 {
            assert(s@.subrange(f, f + p@.len()) == p@);
        }
    }
    None
}

/// Split `s` at every occurrence of the separator `p`, keeping empty
/// chunks.  A string with no separator is one chunk.
pub open spec fn spec_split(s: Seq<char>, p: Seq<char>) -> Seq<Seq<char>>
    decreases s.len(),
{
    let i = spec_find(s, p);
    if p.len() >= 1 && 0 <= i && i + p.len() <= s.len() {
        seq![s.subrange(0, i)] + spec_split(s.subrange(i + p.len(), s.len() as int), p)
    } else {
        seq![s]
    }
}

/// View of a vector of strings as a sequence of character sequences.
pub open spec fn strings_view(v: Seq<String>) -> Seq<Seq<char>> {
    v.map_values(|x: String| x@)
}

/// View of a vector of string slices as a sequence of character sequences.
pub open spec fn strs_view(v: Seq<&str>) -> Seq<Seq<char>> {
    v.map_values(|x: &str| x@)
}

/// Splits `s` on every occurrence of the separator `p`.
pub fn split_str(s: &str, p: &str) -> (r: Vec<String>)
    requires
        p@.len() >= 1,
    ensures
        strings_view(r@) == spec_split(s@, p@),
{
    let plen = p.unicode_len();
    let mut parts: Vec<String> = Vec::new();
    let mut rest: &str = s;
    loop
        invariant_except_break
            spec_split(s@, p@) == strings_view(parts@) + spec_split(rest@, p@),
        invariant
            plen == p@.len(),
            plen >= 1,
        ensures
            strings_view(parts@) == spec_split(s@, p@),
        decreases rest@.len(),
    {
        let rest_len = rest.unicode_len();
        match find_sub(rest, p) {
            Some(i) => {
                proof {
                    lemma_find_first(rest@, p@);
                }
                let ghost old_parts = parts@;
                let ghost old_rest = rest@;
                let head = rest.substring_char(0, i);
                parts.push(head.to_owned());
                rest = rest.substring_char(i + plen, rest_len);
                proof {
                    assert(strings_view(parts@) =~= strings_view(old_parts) + seq![
                        old_rest.subrange(0, i as int),
                    ]);
                    assert(strings_view(parts@) + spec_split(rest@, p@) =~= strings_view(
                        old_parts,
                    ) + spec_split(old_rest, p@));
                }
            },
            None => {
                let ghost old_parts = parts@;
                parts.push(rest.to_owned());
                proof {
                    assert(spec_split(rest@, p@) == seq![rest@]);
                    assert(strings_view(parts@) =~= strings_view(old_parts) + seq![rest@]);
                    assert(strings_view(parts@) =~= spec_split(s@, p@));
                }
                break;
            },
        }
    }
    parts
}

/// Drops a single trailing carriage return, as line splitting does.
pub open spec fn spec_strip_cr(l: Seq<char>) -> Seq<char> {
    if l.len() > 0 && l.last() == '\r' {
        l.drop_last()
    } else {
        l
    }
}

/// The lines of `s`: split at every newline, drop the chunk after a final
/// newline, and strip one trailing carriage return from each line.
pub open spec fn spec_lines(s: Seq<char>) -> Seq<Seq<char>> {
    let parts = spec_split(s, seq!['\n']);
    let kept = if parts.len() > 0 && parts.last().len() == 0 {
        parts.drop_last()
    } else {
        parts
    };
    kept.map_values(|l: Seq<char>| spec_strip_cr(l))
}

/// Splits `s` into lines.
pub fn split_lines(s: &str) -> (r: Vec<String>)
    ensures
        strings_view(r@) == spec_lines(s@),
{
    proof {
        reveal_strlit("\n");
        assert(("\n")@ =~= seq!['\n']);
    }
    let mut parts = split_str(s, "\n");
    let ghost all_parts = strings_view(parts@);
    if parts.len() > 0 && parts[parts.len() - 1].as_str().is_empty() {
        parts.pop();
        proof {
            assert(strings_view(parts@) =~= all_parts.drop_last());
        }
    }
    let ghost kept = strings_view(parts@);
    let mut out: Vec<String> = Vec::new();
    let mut i: usize = 0;
    while i < parts.len()
        invariant
            i <= parts.len(),
            kept == strings_view(parts@),
            out@.len() == i,
            forall|k: int| 0 <= k < i ==> (#[trigger] out@[k])@ == spec_strip_cr(kept[k]),
        decreases parts.len() - i,
    {
        let line = &parts[i];
        let llen = line.as_str().unicode_len();
        if llen > 0 && line.as_str().get_char(llen - 1) == '\r' {
            out.push(line.as_str().substring_char(0, llen - 1).to_owned());
            proof {
                assert(line@.subrange(0, llen - 1) =~= line@.drop_last());
            }
        } else {
            out.push(line.clone());
        }
        i = i + 1;
    }
    proof {
        assert(strings_view(out@) =~= spec_lines(s@));
    }
    out
}

/// Whether `c` is a decimal digit.
pub open spec fn is_digit_char(c: char) -> bool {
    '0' <= c && c <= '9'
}

/// The value of a decimal digit.
pub open spec fn digit_val(c: char) -> int {
    c as u32 - '0' as u32
}

/// A non-empty run of decimal digits.
pub open spec fn is_digits(s: Seq<char>) -> bool {
    s.len() > 0 && forall|i: int| 0 <= i < s.len() ==> is_digit_char(#[trigger] s[i])
}

/// The value of a digit run, most significant digit first.
pub open spec fn digits_val(s: Seq<char>) -> int
    decreases s.len(),
{
    if s.len() == 0 {
        0
    } else {
        digits_val(s.drop_last()) * 10 + digit_val(s.last())
    }
}

/// The integer denoted by `s`: an optional sign followed by digits.
pub open spec fn spec_parse_int(s: Seq<char>) -> Option<int> {
    if s.len() >= 1 && (s[0] == '+' || s[0] == '-') {
        let body = s.subrange(1, s.len() as int);
        if is_digits(body) {
            Some(
                if s[0] == '-' {
                    -digits_val(body)
                } else {
                    digits_val(body)
                },
            )
        } else {
            None
        }
    } else {
        if is_digits(s) {
            Some(digits_val(s))
        } else {
            None
        }
    }
}

/// The non-negative integer denoted by `s`: an optional plus sign followed
/// by digits; a minus sign is not accepted.
pub open spec fn spec_parse_uint(s: Seq<char>) -> Option<int> {
    if s.len() >= 1 && s[0] == '+' {
        let body = s.subrange(1, s.len() as int);
        if is_digits(body) {
            Some(digits_val(body))
        } else {
            None
        }
    } else {
        if is_digits(s) {
            Some(digits_val(s))
        } else {
            None
        }
    }
}

/// The value of a digit run is non-negative.
proof fn lemma_digits_val_nonneg(s: Seq<char>)
    requires
        forall|i: int| 0 <= i < s.len() ==> is_digit_char(#[trigger] s[i]),
    ensures
        digits_val(s) >= 0,
    decreases s.len(),
{
    if s.len() > 0 {
        lemma_digits_val_nonneg(s.drop_last());
    }
}

/// Extending a digit run to the right never lowers its value.
proof fn lemma_digits_val_take_mono(s: Seq<char>, i: int)
    requires
        forall|j: int| 0 <= j < s.len() ==> is_digit_char(#[trigger] s[j]),
        0 <= i <= s.len(),
    ensures
        digits_val(s.take(i)) <= digits_val(s),
    decreases s.len(),
{
    if i == s.len() {
        assert(s.take(i) =~= s);
    } else {
        let front = s.drop_last();
        assert(forall|j: int| 0 <= j < front.len() ==> is_digit_char(#[trigger] front[j]));
        lemma_digits_val_take_mono(front, i);
        assert(front.take(i) =~= s.take(i));
        lemma_digits_val_nonneg(front);
    }
}

/// Whether `s[from..to]` is a non-empty run of decimal digits.
pub fn is_digits_range(s: &str, from: usize, to: usize) -> (r: bool)
    requires
        from <= to <= s@.len(),
    ensures
        r == is_digits(s@.subrange(from as int, to as int)),
{
    let ghost body = s@.subrange(from as int, to as int);
    if from >= to {
        return false;
    }
    let mut i: usize = from;
    while i < to
        invariant
            from <= i <= to <= s@.len(),
            from < to,
            body == s@.subrange(from as int, to as int),
            forall|j: int| from <= j < i ==> is_digit_char(#[trigger] s@[j]),
        decreases to - i,
    {
        let c = s.get_char(i);
        if !(c >= '0' && c <= '9') {
            assert(body[i - from] == s@[i as int]);
            return false;
        }
        i = i + 1;
    }
    proof {
        assert(forall|j: int| 0 <= j < body.len() ==> #[trigger] body[j] == s@[j + from]);
    }
    true
}

/// Parses the digit run `s[from..]` as an unsigned value.  `None` when the
/// run is empty, holds a non-digit, or does not fit in a `u64`.
pub fn parse_digits(s: &str, from: usize) -> (r: Option<u64>)
    requires
        from <= s@.len(),
    ensures
        ({
            let body = s@.subrange(from as int, s@.len() as int);
            match r {
                Some(m) => is_digits(body) && digits_val(body) == m as int,
                None => !is_digits(body) || digits_val(body) > u64::MAX,
            }
        }),
{
    let slen = s.unicode_len();
    let ghost body = s@.subrange(from as int, s@.len() as int);
    if from >= slen {
        return None;
    }
    let mut acc: u64 = 0;
    let mut i: usize = from;
    while i < slen
        invariant
            slen == s@.len(),
            from <= i <= slen,
            from < slen,
            body == s@.subrange(from as int, s@.len() as int),
            forall|j: int| from <= j < i ==> is_digit_char(#[trigger] s@[j]),
            acc as int == digits_val(s@.subrange(from as int, i as int)),
        decreases slen - i,
    {
        let c = s.get_char(i);
        if !(c >= '0' && c <= '9') {
            assert(body[i - from] == s@[i as int]);
            return None;
        }
        let d: u64 = (c as u32 - 48) as u64;
        assert(d as int == digit_val(c));
        if acc > (u64::MAX - d) / 10 {
            proof {
                let part = s@.subrange(from as int, i + 1);
                assert(part.last() == c);
                assert(part.drop_last() =~= s@.subrange(from as int, i as int));
                assert(digits_val(part) == acc as int * 10 + d);
                assert(acc as int * 10 + d > u64::MAX) by (nonlinear_arith)
                    requires
                        acc > (u64::MAX - d) / 10,
                        d < 10,
                ;
                if is_digits(body) {
                    lemma_digits_val_take_mono(body, i + 1 - from);
                    assert(body.take(i + 1 - from) =~= part);
                }
            }
            return None;
        }
        acc = acc * 10 + d;
        proof {
            let part = s@.subrange(from as int, i + 1);
            assert(part.drop_last() =~= s@.subrange(from as int, i as int));
            assert(acc as int == digits_val(part));
        }
        i = i + 1;
    }
    proof {
        assert(body =~= s@.subrange(from as int, slen as int));
        assert(is_digits(body));
    }
    Some(acc)
}

/// Parses `s` as a signed 32-bit integer: optional sign, then digits.
/// `None` when the text is malformed or the value does not fit.
pub fn parse_i32(s: &str) -> (r: Option<i32>)
    ensures
        match r {
            Some(n) => spec_parse_int(s@) == Some(n as int),
            None => match spec_parse_int(s@) {
                Some(v) => v < i32::MIN || v > i32::MAX,
                None => true,
            },
        },
{
    let slen = s.unicode_len();
    if slen == 0 {
        return None;
    }
    let c0 = s.get_char(0);
    if c0 == '-' {
        match parse_digits(s, 1) {
            Some(m) => {
                if m <= 2147483647 {
                    Some(-(m as i32))
                } else if m == 2147483648 {
                    Some(i32::MIN)
                } else {
                    None
                }
            },
            None => {
                proof {
                    if spec_parse_int(s@) is Some {
                        lemma_digits_val_nonneg(s@.subrange(1, s@.len() as int));
                    }
                }
                None
            },
        }
    } else if c0 == '+' {
        match parse_digits(s, 1) {
            Some(m) => {
                if m <= 2147483647 {
                    Some(m as i32)
                } else {
                    None
                }
            },
            None => None,
        }
    } else {
        match parse_digits(s, 0) {
            Some(m) => {
                proof {
                    assert(s@.subrange(0, s@.len() as int) =~= s@);
                }
                if m <= 2147483647 {
                    Some(m as i32)
                } else {
                    None
                }
            },
            None => {
                proof {
                    assert(s@.subrange(0, s@.len() as int) =~= s@);
                }
                None
            },
        }
    }
}

/// Parses `s` as an unsigned machine word: an optional plus sign, then
/// digits.  `None` when the text is malformed or the value does not fit.
pub fn parse_u64(s: &str) -> (r: Option<u64>)
    ensures
        match r {
            Some(n) => spec_parse_uint(s@) == Some(n as int),
            None => match spec_parse_uint(s@) {
                Some(v) => v > u64::MAX,
                None => true,
            },
        },
{
    let slen = s.unicode_len();
    if slen == 0 {
        return None;
    }
    let c0 = s.get_char(0);
    if c0 == '+' {
        parse_digits(s, 1)
    } else if c0 == '-' {
        None
    } else {
        let r = parse_digits(s, 0);
        proof {
            assert(s@.subrange(0, s@.len() as int) =~= s@);
        }
        r
    }
}

/// The digit character for a value below ten.
pub open spec fn spec_digit_char(d: int) -> char {
    if d == 0 {
        '0'
    } else if d == 1 {
        '1'
    } else if d == 2 {
        '2'
    } else if d == 3 {
        '3'
    } else if d == 4 {
        '4'
    } else if d == 5 {
        '5'
    } else if d == 6 {
        '6'
    } else if d == 7 {
        '7'
    } else if d == 8 {
        '8'
    } else {
        '9'
    }
}

/// The shortest decimal spelling of a non-negative integer.
pub open spec fn spec_dec_str(n: int) -> Seq<char>
    decreases n,
{
    if n < 10 {
        seq![spec_digit_char(n)]
    } else {
        spec_dec_str(n / 10) + seq![spec_digit_char(n % 10)]
    }
}

fn digit_to_str(d: u64) -> (r: &'static str)
    requires
        d < 10,
    ensures
        r@ == seq![spec_digit_char(d as int)],
{
    proof {
        reveal_strlit("0");
        reveal_strlit("1");
        reveal_strlit("2");
        reveal_strlit("3");
        reveal_strlit("4");
        reveal_strlit("5");
        reveal_strlit("6");
        reveal_strlit("7");
        reveal_strlit("8");
        reveal_strlit("9");
    }
    let r = if d == 0 {
        "0"
    } else if d == 1 {
        "1"
    } else if d == 2 {
        "2"
    } else if d == 3 {
        "3"
    } else if d == 4 {
        "4"
    } else if d == 5 {
        "5"
    } else if d == 6 {
        "6"
    } else if d == 7 {
        "7"
    } else if d == 8 {
        "8"
    } else {
        "9"
    };
    proof {
        assert(r@ =~= seq![spec_digit_char(d as int)]);
    }
    r
}

/// Writes `n` in decimal.
pub fn u64_to_string(n: u64) -> (r: String)
    ensures
        r@ == spec_dec_str(n as int),
    decreases n,
{
    if n < 10 {
        digit_to_str(n).to_owned()
    } else {
        let front = u64_to_string(n / 10);
        front.concat(digit_to_str(n % 10))
    }
}

/// A decimal spelling is all digits, has no sign, and parses back to the
/// number it spells.
pub proof fn lemma_dec_str_digits(n: int)
    requires
        n >= 0,
    ensures
        is_digits(spec_dec_str(n)),
        digits_val(spec_dec_str(n)) == n,
        spec_parse_int(spec_dec_str(n)) == Some(n),
        spec_parse_uint(spec_dec_str(n)) == Some(n),
    decreases n,
{
    if n < 10 {
        let s = spec_dec_str(n);
        assert(s.len() == 1);
        assert(s.last() == spec_digit_char(n));
        assert(s.drop_last() =~= Seq::<char>::empty());
        assert(digits_val(s.drop_last()) == 0);
        assert(is_digit_char(spec_digit_char(n)));
        assert(digit_val(spec_digit_char(n)) == n);
        assert(digits_val(s) == digit_val(spec_digit_char(n)));
    } else {
        lemma_dec_str_digits(n / 10);
        let s = spec_dec_str(n);
        assert(s.drop_last() =~= spec_dec_str(n / 10));
        assert(digits_val(s) == digits_val(spec_dec_str(n / 10)) * 10 + digit_val(
            spec_digit_char(n % 10),
        ));
        assert(digit_val(spec_digit_char(n % 10)) == n % 10);
        assert((n / 10) * 10 + n % 10 == n) by (nonlinear_arith);
    }
}

} // verus!
