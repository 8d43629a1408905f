//! Character-level helpers shared by the markup scanner, the decoders and the
//! request builders: first-occurrence search, decimal digits, and exact
//! string/character conversions.

use vstd::prelude::*;

verus! {

/// Whitespace accepted between markup tokens.
pub open spec fn is_ws(c: char) -> bool {
    c == ' ' || c == '\t' || c == '\n' || c == '\r'
}

/// Characters allowed in an element or attribute name.
pub open spec fn is_name_char(c: char) -> bool {
    !(is_ws(c) || c == '<' || c == '>' || c == '/' || c == '=' || c == '"' || c == '?' || c
        == '!')
}

/// A well-formed element or attribute name: nonempty, name characters only.
pub open spec fn is_name(s: Seq<char>) -> bool {
    s.len() > 0 && (forall|i: int| 0 <= i < s.len() ==> is_name_char(s[i]))
}

/// Index of the first occurrence of `c` in `s` at or after `i`; `s.len()` if none.
pub open spec fn find_at(s: Seq<char>, c: char, i: int) -> int
    decreases s.len() - i,
{
    if i < 0 || i >= s.len() {
        s.len() as int
    } else if s[i] == c {
        i
    } else {
        find_at(s, c, i + 1)
    }
}

pub proof fn lemma_find_at(s: Seq<char>, c: char, i: int)
    requires
        0 <= i <= s.len(),
    ensures
        i <= find_at(s, c, i) <= s.len(),
        find_at(s, c, i) < s.len() ==> s[find_at(s, c, i)] == c,
        forall|j: int| i <= j < find_at(s, c, i) ==> s[j] != c,
    decreases s.len() - i,
{
    if i < s.len() && s[i] != c {
        lemma_find_at(s, c, i + 1);
    }
}

/// The first match is unique: a witness position pins `find_at` down.
pub proof fn lemma_find_at_is(s: Seq<char>, c: char, i: int, r: int)
    requires
        0 <= i <= r <= s.len(),
        r < s.len() ==> s[r] == c,
        forall|j: int| i <= j < r ==> s[j] != c,
    ensures
        find_at(s, c, i) == r,
    decreases r - i,
{
    if i < r {
        lemma_find_at_is(s, c, i + 1, r);
    }
}

/// Index of the first comment terminator (the three characters `-->`) at or
/// after `i`; `s.len()` if none.
pub open spec fn find_dashes_end(s: Seq<char>, i: int) -> int
    decreases s.len() - i,
{
    if i < 0 || i + 2 >= s.len() {
        s.len() as int
    } else if s[i] == '-' && s[i + 1] == '-' && s[i + 2] == '>' {
        i
    } else {
        find_dashes_end(s, i + 1)
    }
}

pub proof fn lemma_find_dashes(s: Seq<char>, i: int)
    requires
        0 <= i <= s.len(),
    ensures
        i <= find_dashes_end(s, i) <= s.len(),
        find_dashes_end(s, i) < s.len() ==> find_dashes_end(s, i) + 2 < s.len() && s[
            find_dashes_end(s, i)
        ] == '-' && s[find_dashes_end(s, i) + 1] == '-' && s[find_dashes_end(s, i) + 2] == '>',
        forall|j: int|
            i <= j < find_dashes_end(s, i) ==> !(j + 2 < s.len() && #[trigger] s[j] == '-' && s[j + 1]
                == '-' && s[j + 2] == '>'),
    decreases s.len() - i,
{
    if i + 2 < s.len() && !(s[i] == '-' && s[i + 1] == '-' && s[i + 2] == '>') {
        lemma_find_dashes(s, i + 1);
    }
}

/// The first comment terminator is unique: a witness pins it down.
pub proof fn lemma_find_dashes_is(s: Seq<char>, i: int, r: int)
    requires
        0 <= i <= r <= s.len(),
        r < s.len() ==> r + 2 < s.len() && s[r] == '-' && s[r + 1] == '-' && s[r + 2] == '>',
        forall|j: int|
            i <= j < r ==> !(j + 2 < s.len() && #[trigger] s[j] == '-' && s[j + 1] == '-'
                && s[j + 2] == '>'),
    ensures
        find_dashes_end(s, i) == r,
    decreases r - i,
{
    if i < r {
        lemma_find_dashes_is(s, i + 1, r);
    }
}

/// `find_dashes_end` on a suffix of `s`, expressed through `s` itself.
pub proof fn lemma_find_dashes_shift(s: Seq<char>, lo: int, i: int)
    requires
        0 <= lo,
        0 <= i,
        lo + i <= s.len(),
    ensures
        find_dashes_end(s.subrange(lo, s.len() as int), i) == find_dashes_end(s, lo + i) - lo,
{
    let x = s.subrange(lo, s.len() as int);
    lemma_find_dashes(s, lo + i);
    let f = find_dashes_end(s, lo + i);
    if f < s.len() {
        lemma_find_dashes_is(x, i, f - lo);
    } else {
        lemma_find_dashes_is(x, i, x.len() as int);
    }
}

pub fn find_dashes(s: &Vec<char>, from: usize) -> (r: usize)
    requires
        from <= s@.len(),
    ensures
        r == find_dashes_end(s@, from as int),
{
    let n: usize = s.len();
    let mut i: usize = from;
    if n >= 3 {
        while i < n - 2
            invariant
                n >= 3,
                from <= i <= n,
                n == s@.len(),
                forall|j: int|
                    from <= j < i ==> !(j + 2 < s@.len() && #[trigger] s@[j] == '-' && s@[
                        j + 1
                    ] == '-' && s@[j + 2] == '>'),
            decreases n - i,
        {
            if s[i] == '-' && s[i + 1] == '-' && s[i + 2] == '>' {
                proof {
                    lemma_find_dashes_is(s@, from as int, i as int);
                }
                return i;
            }
            i += 1;
        }
    }
    proof {
        lemma_find_dashes_is(s@, from as int, s@.len() as int);
    }
    n
}

/// First position at or after `i` whose character is not a name character;
/// `s.len()` if all are.
pub open spec fn name_end_at(s: Seq<char>, i: int) -> int
    decreases s.len() - i,
{
    if i < 0 || i >= s.len() {
        s.len() as int
    } else if !is_name_char(s[i]) {
        i
    } else {
        name_end_at(s, i + 1)
    }
}

pub proof fn lemma_name_end_at(s: Seq<char>, i: int)
    requires
        0 <= i <= s.len(),
    ensures
        i <= name_end_at(s, i) <= s.len(),
        name_end_at(s, i) < s.len() ==> !is_name_char(s[name_end_at(s, i)]),
        forall|j: int| i <= j < name_end_at(s, i) ==> is_name_char(s[j]),
    decreases s.len() - i,
{
    if i < s.len() && is_name_char(s[i]) {
        lemma_name_end_at(s, i + 1);
    }
}

pub proof fn lemma_name_end_at_is(s: Seq<char>, i: int, r: int)
    requires
        0 <= i <= r <= s.len(),
        r < s.len() ==> !is_name_char(s[r]),
        forall|j: int| i <= j < r ==> is_name_char(s[j]),
    ensures
        name_end_at(s, i) == r,
    decreases r - i,
{
    if i < r {
        lemma_name_end_at_is(s, i + 1, r);
    }
}

pub fn ws_char(c: char) -> (r: bool)
    ensures
        r == is_ws(c),
{
    c == ' ' || c == '\t' || c == '\n' || c == '\r'
}

pub fn name_char(c: char) -> (r: bool)
    ensures
        r == is_name_char(c),
{
    !(ws_char(c) || c == '<' || c == '>' || c == '/' || c == '=' || c == '"' || c == '?' || c
        == '!')
}

pub fn find_char(s: &Vec<char>, c: char, from: usize) -> (r: usize)
    requires
        from <= s@.len(),
    ensures
        r == find_at(s@, c, from as int),
{
    let n: usize = s.len();
    let mut i: usize = from;
    while i < n
        invariant
            from <= i <= n,
            n == s@.len(),
            forall|j: int| from <= j < i ==> s@[j] != c,
        decreases n - i,
    {
        if s[i] == c {
            proof {
                lemma_find_at_is(s@, c, from as int, i as int);
            }
            return i;
        }
        i += 1;
    }
    proof {
        lemma_find_at_is(s@, c, from as int, n as int);
    }
    n
}

pub fn find_name_end(s: &Vec<char>, from: usize) -> (r: usize)
    requires
        from <= s@.len(),
    ensures
        r == name_end_at(s@, from as int),
{
    let n: usize = s.len();
    let mut i: usize = from;
    while i < n
        invariant
            from <= i <= n,
            n == s@.len(),
            forall|j: int| from <= j < i ==> is_name_char(s@[j]),
        decreases n - i,
    {
        if !name_char(s[i]) {
            proof {
                lemma_name_end_at_is(s@, from as int, i as int);
            }
            return i;
        }
        i += 1;
    }
    proof {
        lemma_name_end_at_is(s@, from as int, n as int);
    }
    n
}

/// Decimal digits.
pub open spec fn is_digit(c: char) -> bool {
    '0' <= c && c <= '9'
}

pub open spec fn digit_val(c: char) -> int {
    c as int - '0' as int
}

/// The character for one digit value.
pub open spec fn digit_char(d: int) -> char {
    if d == 0 {
        '0'
    } else if d == 1 {
        '1'
    } else if d == 2 {
        '2'
    } else if d == 3 {
        '3'
    } else if d == 4 {
        '4'
    } else if d == 5 {
        '5'
    } else if d == 6 {
        '6'
    } else if d == 7 {
        '7'
    } else if d == 8 {
        '8'
    } else {
        '9'
    }
}

/// The usual decimal rendering of `n`, most significant digit first.
pub open spec fn dec_digits(n: nat) -> Seq<char>
    decreases n,
{
    if n < 10 {
        seq![digit_char(n as int)]
    } else {
        dec_digits(n / 10).push(digit_char((n % 10) as int))
    }
}

/// The number a digit sequence denotes.
pub open spec fn dec_value(s: Seq<char>) -> int
    decreases s.len(),
{
    if s.len() == 0 {
        0
    } else {
        dec_value(s.drop_last()) * 10 + digit_val(s.last())
    }
}

/// A sequence that the decoders accept as a count: nonempty, digits only.
pub open spec fn is_dec_seq(s: Seq<char>) -> bool {
    s.len() > 0 && (forall|i: int| 0 <= i < s.len() ==> is_digit(s[i]))
}

pub proof fn lemma_digit_char_val(d: int)
    requires
        0 <= d < 10,
    ensures
        is_digit(digit_char(d)),
        digit_val(digit_char(d)) == d,
{
    assert('0' as int == 48);
    assert('1' as int == 49);
    assert('2' as int == 50);
    assert('3' as int == 51);
    assert('4' as int == 52);
    assert('5' as int == 53);
    assert('6' as int == 54);
    assert('7' as int == 55);
    assert('8' as int == 56);
    assert('9' as int == 57);
}

pub proof fn lemma_dec_digits_value(n: nat)
    ensures
        is_dec_seq(dec_digits(n)),
        dec_value(dec_digits(n)) == n,
    decreases n,
{
    if n < 10 {
        lemma_digit_char_val(n as int);
        let s = dec_digits(n);
        assert(s =~= seq![digit_char(n as int)]);
        assert(s.len() == 1);
        assert(s.last() == digit_char(n as int));
        assert(s.drop_last() =~= Seq::<char>::empty());
        assert(dec_value(s) == dec_value(s.drop_last()) * 10 + digit_val(s.last()));
        assert(dec_value(s.drop_last()) == 0);
    } else {
        lemma_dec_digits_value(n / 10);
        lemma_digit_char_val((n % 10) as int);
        let s = dec_digits(n);
        assert(s == dec_digits(n / 10).push(digit_char((n % 10) as int)));
        assert(s.drop_last() =~= dec_digits(n / 10));
        assert(s.last() == digit_char((n % 10) as int));
        assert(s.len() > 0);
        assert(dec_value(s) == dec_value(s.drop_last()) * 10 + digit_val(s.last()));
        assert(dec_value(s) == (n / 10) * 10 + (n % 10));
        assert(n == (n / 10) * 10 + (n % 10));
        assert(forall|i: int| 0 <= i < s.len() ==> is_digit(#[trigger] s[i]));
    }
}

/// Adding digits on the right never shrinks the value.
pub proof fn lemma_dec_value_prefix_le(s: Seq<char>, k: int)
    requires
        0 <= k <= s.len(),
        forall|i: int| 0 <= i < s.len() ==> is_digit(s[i]),
    ensures
        dec_value(s.take(k)) <= dec_value(s),
        dec_value(s) >= 0,
    decreases s.len(),
{
    if s.len() == 0 {
        assert(s.take(k) =~= s);
    } else {
        lemma_dec_value_prefix_le(s.drop_last(), if k <= s.len() - 1 { k } else { s.len() - 1 });
        if k <= s.len() - 1 {
            assert(s.take(k) =~= s.drop_last().take(k));
        } else {
            assert(s.take(k) =~= s);
        }
    }
}

pub fn digit_of(c: char) -> (r: Option<u8>)
    ensures
        match r {
            Some(d) => is_digit(c) && d == digit_val(c) && d < 10,
            None => !is_digit(c),
        },
{
    if '0' <= c && c <= '9' {
        Some((c as u8) - 48)
    } else {
        None
    }
}

pub fn push_digit_char(out: &mut Vec<char>, d: u8)
    requires
        d < 10,
    ensures
        final(out)@ == old(out)@.push(digit_char(d as int)),
{
    let c: char = match d {
        0 => '0',
        1 => '1',
        2 => '2',
        3 => '3',
        4 => '4',
        5 => '5',
        6 => '6',
        7 => '7',
        8 => '8',
        _ => '9',
    };
    out.push(c);
}

/// Append the decimal rendering of `n`.
pub fn push_dec_digits(out: &mut Vec<char>, n: u64)
    ensures
        final(out)@ == old(out)@ + dec_digits(n as nat),
    decreases n,
{
    if n < 10 {
        push_digit_char(out, (n % 10) as u8);
        assert(final(out)@ =~= old(out)@ + dec_digits(n as nat));
    } else {
        push_dec_digits(out, n / 10);
        push_digit_char(out, (n % 10) as u8);
        assert(final(out)@ =~= old(out)@ + dec_digits(n as nat));
    }
}

/// Parse the digits `s[from..to]` as a count.  `None` exactly when the range
/// is not a digit run or its value does not fit.
pub fn parse_dec_range(s: &Vec<char>, from: usize, to: usize) -> (r: Option<u64>)
    requires
        from <= to <= s@.len(),
    ensures
        match r {
            Some(v) => is_dec_seq(s@.subrange(from as int, to as int)) && v as int == dec_value(
                s@.subrange(from as int, to as int),
            ),
            None => !(is_dec_seq(s@.subrange(from as int, to as int)) && dec_value(
                s@.subrange(from as int, to as int),
            ) <= u64::MAX),
        },
{
    let ghost whole = s@.subrange(from as int, to as int);
    if from == to {
        return None;
    }
    let mut acc: u64 = 0;
    let mut i: usize = from;
    while i < to
        invariant
            from <= i <= to <= s@.len(),
            whole == s@.subrange(from as int, to as int),
            forall|j: int| from <= j < i ==> is_digit(s@[j]),
            acc as int == dec_value(s@.subrange(from as int, i as int)),
        decreases to - i,
    {
        let ghost prefix = s@.subrange(from as int, i as int);
        let ghost next_prefix = s@.subrange(from as int, i as int + 1);
        match digit_of(s[i]) {
            None => {
                assert(!is_dec_seq(whole)) by {
                    assert(whole[i - from] == s@[i as int]);
                }
                return None;
            },
            Some(d) => {
                assert(next_prefix.drop_last() =~= prefix);
                assert(next_prefix.last() == s@[i as int]);
                if acc > (u64::MAX - (d as u64)) / 10 {
                    // The value up to here already exceeds the range; more
                    // digits only grow it.
                    proof {
                        assert(dec_value(next_prefix) > u64::MAX);
                        assert(whole.take(i as int + 1 - from) =~= next_prefix);
                        if forall|j: int| 0 <= j < whole.len() ==> is_digit(whole[j]) {
                            lemma_dec_value_prefix_le(whole, i as int + 1 - from);
                        }
                    }
                    return None;
                }
                acc = acc * 10 + (d as u64);
            },
        }
        i += 1;
    }
    assert(whole =~= s@.subrange(from as int, to as int));
    assert(forall|j: int| 0 <= j < whole.len() ==> is_digit(whole[j]));
    Some(acc)
}

/// The characters of `s`, in order.
pub fn str_chars(s: &str) -> (r: Vec<char>)
    ensures
        r@ == s@,
{
    let n: usize = s.unicode_len();
    let mut out: Vec<char> = Vec::new();
    let mut i: usize = 0;
    while i < n
        invariant
            i <= n,
            n == s@.len(),
            out@ == s@.take(i as int),
        decreases n - i,
    {
        let c = s.get_char(i);
        out.push(c);
        assert(out@ =~= s@.take(i as int + 1));
        i += 1;
    }
    assert(out@ =~= s@);
    out
}

/// Relies on `String as FromIterator<&char>`: collecting the characters
/// yields the string of exactly those characters, in order.
#[verifier::external_body]
pub(crate) fn chars_to_string(v: &Vec<char>) -> (r: String)
    ensures
        r@ == v@,
{
    v.iter().collect()
}

/// The lower-case hexadecimal digit for one value.
pub open spec fn hex_char(d: int) -> char {
    if d < 10 {
        digit_char(d)
    } else if d == 10 {
        'a'
    } else if d == 11 {
        'b'
    } else if d == 12 {
        'c'
    } else if d == 13 {
        'd'
    } else if d == 14 {
        'e'
    } else {
        'f'
    }
}

pub fn hex_char_exec(d: u8) -> (r: char)
    requires
        d < 16,
    ensures
        r == hex_char(d as int),
{
    if d < 10 {
        digit_char_of(d)
    } else {
        match d {
            10 => 'a',
            11 => 'b',
            12 => 'c',
            13 => 'd',
            14 => 'e',
            _ => 'f',
        }
    }
}

/// The character of one decimal digit value.
pub fn digit_char_of(d: u8) -> (r: char)
    requires
        d < 10,
    ensures
        r == digit_char(d as int),
{
    match d {
        0 => '0',
        1 => '1',
        2 => '2',
        3 => '3',
        4 => '4',
        5 => '5',
        6 => '6',
        7 => '7',
        8 => '8',
        _ => '9',
    }
}

/// Element text with the predefined entity references resolved: `&amp;`,
/// `&lt;`, `&gt;`, `&quot;` and `&apos;` become their characters; anything
/// else, including numeric character references, stands verbatim.
pub open spec fn spec_unescape(s: Seq<char>) -> Seq<char>
    decreases s.len(),
{
    if s.len() == 0 {
        Seq::empty()
    } else if s.len() >= 5 && s.subrange(0, 5) == "&amp;"@ {
        seq!['&'] + spec_unescape(s.skip(5))
    } else if s.len() >= 4 && s.subrange(0, 4) == "&lt;"@ {
        seq!['<'] + spec_unescape(s.skip(4))
    } else if s.len() >= 4 && s.subrange(0, 4) == "&gt;"@ {
        seq!['>'] + spec_unescape(s.skip(4))
    } else if s.len() >= 6 && s.subrange(0, 6) == "&quot;"@ {
        seq!['"'] + spec_unescape(s.skip(6))
    } else if s.len() >= 6 && s.subrange(0, 6) == "&apos;"@ {
        seq!['\''] + spec_unescape(s.skip(6))
    } else {
        seq![s[0]] + spec_unescape(s.skip(1))
    }
}

/// Text without an ampersand is its own unescaped form.
pub proof fn lemma_unescape_plain(s: Seq<char>)
    requires
        forall|j: int| 0 <= j < s.len() ==> s[j] != '&',
    ensures
        spec_unescape(s) == s,
    decreases s.len(),
{
    reveal_strlit("&amp;");
    reveal_strlit("&lt;");
    reveal_strlit("&gt;");
    reveal_strlit("&quot;");
    reveal_strlit("&apos;");
    if s.len() > 0 {
        if s.len() >= 4 {
            assert(s.subrange(0, 4)[0] == s[0]);
        }
        if s.len() >= 5 {
            assert(s.subrange(0, 5)[0] == s[0]);
        }
        if s.len() >= 6 {
            assert(s.subrange(0, 6)[0] == s[0]);
        }
        lemma_unescape_plain(s.skip(1));
        assert(seq![s[0]] + s.skip(1) =~= s);
    }
}

/// Whether the characters `pat` stand at position `i` of `cs`.
fn has_prefix(cs: &Vec<char>, i: usize, pat: &str) -> (r: bool)
    requires
        i <= cs@.len(),
    ensures
        r == (i + pat@.len() <= cs@.len() && cs@.subrange(i as int, i + pat@.len()) == pat@),
{
    let m: usize = pat.unicode_len();
    let total: usize = cs.len();
    if total - i < m {
        return false;
    }
    let mut k: usize = 0;
    while k < m
        invariant
            k <= m,
            m == pat@.len(),
            total == cs@.len(),
            i + m <= total,
            forall|j: int| 0 <= j < k ==> cs@[i + j] == pat@[j],
        decreases m - k,
    {
        if cs[i + k] != pat.get_char(k) {
            proof {
                assert(cs@.subrange(i as int, i + pat@.len())[k as int] == cs@[i + k]);
            }
            return false;
        }
        k += 1;
    }
    proof {
        assert(cs@.subrange(i as int, i + pat@.len()) =~= pat@);
    }
    true
}

/// Resolve the predefined entity references in element text.
pub fn unescape_text(t: &str) -> (r: String)
    ensures
        r@ == spec_unescape(t@),
{
    let cs = str_chars(t);
    let n: usize = cs.len();
    let mut out: Vec<char> = Vec::new();
    let mut i: usize = 0;
    proof {
        assert(cs@.skip(0) =~= cs@);
        assert(out@ + spec_unescape(cs@) =~= spec_unescape(cs@));
    }
    while i < n
        invariant
            i <= n,
            n == cs@.len(),
            cs@ == t@,
            spec_unescape(cs@) == out@ + spec_unescape(cs@.skip(i as int)),
        decreases n - i,
    {
        let ghost suffix = cs@.skip(i as int);
        proof {
            reveal_strlit("&amp;");
            reveal_strlit("&lt;");
            reveal_strlit("&gt;");
            reveal_strlit("&quot;");
            reveal_strlit("&apos;");
            assert(suffix.len() == n - i);
            assert(forall|j: int| 0 <= j < suffix.len() ==> suffix[j] == cs@[i + j]);
            if suffix.len() >= 4 {
                assert(suffix.subrange(0, 4) =~= cs@.subrange(i as int, i + 4));
            }
            if suffix.len() >= 5 {
                assert(suffix.subrange(0, 5) =~= cs@.subrange(i as int, i + 5));
            }
            if suffix.len() >= 6 {
                assert(suffix.subrange(0, 6) =~= cs@.subrange(i as int, i + 6));
            }
        }
        let ghost old_out = out@;
        let mut step: usize = 1;
        if cs[i] == '&' {
            if has_prefix(&cs, i, "&amp;") {
                out.push('&');
                step = 5;
                proof {
                    assert(spec_unescape(suffix) == seq!['&'] + spec_unescape(suffix.skip(5)));
                }
            } else if has_prefix(&cs, i, "&lt;") {
                out.push('<');
                step = 4;
                proof {
                    assert(spec_unescape(suffix) == seq!['<'] + spec_unescape(suffix.skip(4)));
                }
            } else if has_prefix(&cs, i, "&gt;") {
                out.push('>');
                step = 4;
                proof {
                    assert(spec_unescape(suffix) == seq!['>'] + spec_unescape(suffix.skip(4)));
                }
            } else if has_prefix(&cs, i, "&quot;") {
                out.push('"');
                step = 6;
                proof {
                    assert(spec_unescape(suffix) == seq!['"'] + spec_unescape(suffix.skip(6)));
                }
            } else if has_prefix(&cs, i, "&apos;") {
                out.push('\'');
                step = 6;
                proof {
                    assert(spec_unescape(suffix) == seq!['\''] + spec_unescape(suffix.skip(6)));
                }
            } else {
                out.push(cs[i]);
                proof {
                    assert(spec_unescape(suffix) == seq![suffix[0]] + spec_unescape(
                        suffix.skip(1),
                    ));
                }
            }
        } else {
            out.push(cs[i]);
            proof {
                if suffix.len() >= 5 {
                    assert(suffix.subrange(0, 5)[0] == suffix[0]);
                }
                if suffix.len() >= 4 {
                    assert(suffix.subrange(0, 4)[0] == suffix[0]);
                }
                if suffix.len() >= 6 {
                    assert(suffix.subrange(0, 6)[0] == suffix[0]);
                }
                assert(spec_unescape(suffix) == seq![suffix[0]] + spec_unescape(suffix.skip(1)));
            }
        }
        proof {
            assert(suffix.skip(step as int) =~= cs@.skip(i + step));
            assert(out@ =~= old_out.push(spec_unescape(suffix)[0]));
            assert(old_out + spec_unescape(suffix) =~= out@ + spec_unescape(
                cs@.skip(i + step),
            ));
        }
        i += step;
    }
    proof {
        assert(cs@.skip(n as int) =~= Seq::<char>::empty());
        assert(out@ + Seq::<char>::empty() =~= out@);
    }
    chars_to_string(&out)
}

/// `find_at` on a window of `s`, expressed through `find_at` on `s` itself.
pub proof fn lemma_find_translate(s: Seq<char>, lo: int, hi: int, c: char, i: int)
    requires
        0 <= lo,
        0 <= i,
        lo + i <= hi <= s.len(),
    ensures
        find_at(s.subrange(lo, hi), c, i) == (if find_at(s, c, lo + i) < hi {
            find_at(s, c, lo + i) - lo
        } else {
            hi - lo
        }),
{
    let b = s.subrange(lo, hi);
    lemma_find_at(s, c, lo + i);
    let f = find_at(s, c, lo + i);
    if f < hi {
        lemma_find_at_is(b, c, i, f - lo);
    } else {
        lemma_find_at_is(b, c, i, hi - lo);
    }
}

/// The characters `s[from..to]`, as a string.
pub fn chars_range_to_string(s: &Vec<char>, from: usize, to: usize) -> (r: String)
    requires
        from <= to <= s@.len(),
    ensures
        r@ == s@.subrange(from as int, to as int),
{
    let mut tmp: Vec<char> = Vec::new();
    let mut i: usize = from;
    while i < to
        invariant
            from <= i <= to <= s@.len(),
            tmp@ == s@.subrange(from as int, i as int),
        decreases to - i,
    {
        tmp.push(s[i]);
        assert(tmp@ =~= s@.subrange(from as int, i as int + 1));
        i += 1;
    }
    chars_to_string(&tmp)
}

/// Character-exact string equality.
pub fn str_eq(a: &str, b: &str) -> (r: bool)
    ensures
        r == (a@ == b@),
{
    let na: usize = a.unicode_len();
    let nb: usize = b.unicode_len();
    if na != nb {
        return false;
    }
    let mut i: usize = 0;
    while i < na
        invariant
            i <= na,
            na == a@.len(),
            na == b@.len(),
            forall|j: int| 0 <= j < i ==> a@[j] == b@[j],
        decreases na - i,
    {
        if a.get_char(i) != b.get_char(i) {
            return false;
        }
        i += 1;
    }
    assert(a@ =~= b@);
    true
}

} // verus!
