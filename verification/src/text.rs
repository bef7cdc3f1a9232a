//! Text normalization shared by every page parser.
//!
//! Scraped text is full of non-breaking spaces, tabs and newline runs; the
//! parsers compare cell text only after collapsing every whitespace run to a
//! single ASCII space and trimming both ends. The specification views a
//! string as its sequence of whitespace-separated words joined by single
//! spaces.

use vstd::prelude::*;

verus! {

use vstd::string::StrSliceExecFns;

/// A character with the Unicode `White_Space` property; the set
/// `str::split_whitespace` splits on.
pub open spec fn is_ws(c: char) -> bool {
    ||| c as u32 == 0x09
    ||| c as u32 == 0x0A
    ||| c as u32 == 0x0B
    ||| c as u32 == 0x0C
    ||| c as u32 == 0x0D
    ||| c as u32 == 0x20
    ||| c as u32 == 0x85
    ||| c as u32 == 0xA0
    ||| c as u32 == 0x1680
    ||| (0x2000 <= c as u32 && c as u32 <= 0x200A)
    ||| c as u32 == 0x2028
    ||| c as u32 == 0x2029
    ||| c as u32 == 0x202F
    ||| c as u32 == 0x205F
    ||| c as u32 == 0x3000
}

/// Executable test for [`is_ws`].
pub fn is_space_char(c: char) -> (r: bool)
    ensures
        r == is_ws(c),
{
    let u = c as u32;
    u == 0x09 || u == 0x0A || u == 0x0B || u == 0x0C || u == 0x0D || u == 0x20 || u == 0x85 || u
        == 0xA0 || u == 0x1680 || (0x2000 <= u && u <= 0x200A) || u == 0x2028 || u == 0x2029 || u
        == 0x202F || u == 0x205F || u == 0x3000
}

/// The characters of a string, as a vector.
pub fn chars_of(s: &str) -> (r: Vec<char>)
    ensures
        r@ == s@,
{
    let n = s.unicode_len();
    let mut r: Vec<char> = Vec::new();
    let mut i: usize = 0;
    while i < n
        invariant
            i <= n,
            n == s@.len(),
            r@ == s@.take(i as int),
        decreases n - i,
    {
        let c = s.get_char(i);
        r.push(c);
        proof {
            assert(s@.take(i + 1 as int) =~= s@.take(i as int).push(s@[i as int]));
        }
        i += 1;
    }
    proof {
        assert(s@.take(n as int) =~= s@);
    }
    r
}

/// Relies on `String::push`: appends exactly the given character.
#[verifier::external_body]
pub fn push_char(s: &mut String, c: char)
    ensures
        final(s)@ == old(s)@.push(c),
{
    s.push(c);
}

/// Length of the maximal whitespace-free prefix.
pub open spec fn word_len(s: Seq<char>) -> nat
    decreases s.len(),
{
    if s.len() == 0 || is_ws(s[0]) {
        0
    } else {
        1 + word_len(s.skip(1))
    }
}

/// The maximal prefix counted by [`word_len`] is whitespace-free and no
/// longer than the string, and the character after it (if any) is whitespace.
pub proof fn lemma_word_len(s: Seq<char>)
    ensures
        word_len(s) <= s.len(),
        forall|k: int| 0 <= k < word_len(s) ==> !is_ws(#[trigger] s[k]),
        word_len(s) < s.len() ==> is_ws(s[word_len(s) as int]),
    decreases s.len(),
{
    if s.len() == 0 || is_ws(s[0]) {
    } else {
        lemma_word_len(s.skip(1));
        assert forall|k: int| 0 <= k < word_len(s) implies !is_ws(#[trigger] s[k]) by {
            if k > 0 {
                assert(s[k] == s.skip(1)[k - 1]);
            }
        }
        if word_len(s) < s.len() {
            assert(s[word_len(s) as int] == s.skip(1)[word_len(s.skip(1)) as int]);
        }
    }
}

/// The whitespace-separated words of a string, in order.
pub open spec fn words_of(s: Seq<char>) -> Seq<Seq<char>>
    decreases s.len(),
    via words_of_decreases
{
    if s.len() == 0 {
        Seq::empty()
    } else if is_ws(s[0]) {
        words_of(s.skip(1))
    } else {
        seq![s.take(word_len(s) as int)] + words_of(s.skip(word_len(s) as int))
    }
}

#[via_fn]
proof fn words_of_decreases(s: Seq<char>) {
    if s.len() > 0 && !is_ws(s[0]) {
        lemma_word_len(s);
    }
}

/// Each word prefixed by one space, concatenated.
pub open spec fn join_pre(ws: Seq<Seq<char>>) -> Seq<char>
    decreases ws.len(),
{
    if ws.len() == 0 {
        Seq::empty()
    } else {
        seq![' '] + ws[0] + join_pre(ws.skip(1))
    }
}

/// The words joined by single spaces, with no leading or trailing space.
pub open spec fn join_spaces(ws: Seq<Seq<char>>) -> Seq<char> {
    if ws.len() == 0 {
        Seq::empty()
    } else {
        ws[0] + join_pre(ws.skip(1))
    }
}

/// What normalization returns: the string's words joined by single spaces.
pub open spec fn normalize_spec(s: Seq<char>) -> Seq<char> {
    join_spaces(words_of(s))
}

/// Collapses every whitespace run to a single ASCII space and trims both
/// ends.
pub fn normalize_text(s: &str) -> (r: String)
    ensures
        r@ == normalize_spec(s@),
{
    let cs = chars_of(s);
    let n = cs.len();
    let mut out = String::new();
    let mut i: usize = 0;
    proof {
        assert(s@.skip(0) =~= s@);
    }
    while i < n
        invariant
            i <= n,
            n == cs@.len(),
            cs@ == s@,
            out@.len() == 0 ==> normalize_spec(s@) == join_spaces(words_of(s@.skip(i as int))),
            out@.len() > 0 ==> normalize_spec(s@) == out@ + join_pre(words_of(s@.skip(i as int))),
        decreases n - i,
    {
        if is_space_char(cs[i]) {
            proof {
                let t = s@.skip(i as int);
                assert(t[0] == s@[i as int]);
                assert(t.skip(1) =~= s@.skip(i + 1 as int));
                assert(words_of(t) == words_of(t.skip(1)));
            }
            i += 1;
        } else {
            let ghost w = i as int;
            let ghost out_before = out@;
            let sep = !out.as_str().is_empty();
            if sep {
                push_char(&mut out, ' ');
            }
            let ghost out0 = out@;
            while i < n && !is_space_char(cs[i])
                invariant
                    0 <= w <= i <= n,
                    n == cs@.len(),
                    cs@ == s@,
                    word_len(s@.skip(w)) == (i - w) + word_len(s@.skip(i as int)),
                    out@ == out0 + s@.subrange(w, i as int),
                decreases n - i,
            {
                proof {
                    assert(s@.skip(i as int).skip(1) =~= s@.skip(i + 1 as int));
                    assert(s@.skip(i as int)[0] == s@[i as int]);
                    assert(word_len(s@.skip(i as int)) == 1 + word_len(s@.skip(i + 1 as int)));
                    assert(s@.subrange(w, i + 1 as int) =~= s@.subrange(w, i as int).push(
                        s@[i as int],
                    ));
                }
                push_char(&mut out, cs[i]);
                i += 1;
            }
            proof {
                let tail = s@.skip(i as int);
                if i < n {
                    assert(tail[0] == s@[i as int]);
                }
                assert(word_len(tail) == 0);
                let rest = s@.skip(w);
                assert(word_len(rest) == i - w);
                let word = s@.subrange(w, i as int);
                assert(rest[0] == s@[w]);
                assert(!is_ws(rest[0]));
                assert(i - w >= 1);
                assert(words_of(rest) == seq![rest.take((i - w) as int)] + words_of(
                    rest.skip((i - w) as int),
                ));
                assert(rest.take((i - w) as int) =~= word);
                assert(rest.skip((i - w) as int) =~= tail);
                let wlist = seq![word] + words_of(tail);
                assert(words_of(rest) == wlist);
                assert(wlist[0] == word);
                assert(wlist.skip(1) =~= words_of(tail));
                assert(out@ =~= out0 + word);
                if sep {
                    assert(normalize_spec(s@) == out_before + join_pre(words_of(rest)));
                    assert(join_pre(wlist) == seq![' '] + word + join_pre(words_of(tail)));
                    assert(out_before + (seq![' '] + word + join_pre(words_of(tail))) =~= (
                    out_before + seq![' ']) + word + join_pre(words_of(tail)));
                    assert(out0 =~= out_before + seq![' ']);
                    assert(normalize_spec(s@) == out@ + join_pre(words_of(tail)));
                } else {
                    assert(normalize_spec(s@) == join_spaces(words_of(rest)));
                    assert(join_spaces(wlist) == word + join_pre(words_of(tail)));
                    assert(out0 =~= Seq::<char>::empty());
                    assert(out@ =~= word);
                    assert(normalize_spec(s@) == out@ + join_pre(words_of(tail)));
                }
                assert(out@.len() > 0);
            }
        }
    }
    proof {
        assert(s@.skip(n as int) =~= Seq::<char>::empty());
        if out@.len() == 0 {
            assert(normalize_spec(s@) =~= out@);
        } else {
            assert(normalize_spec(s@) =~= out@ + join_pre(words_of(Seq::<char>::empty())));
            assert(out@ + join_pre(Seq::<Seq<char>>::empty()) =~= out@);
        }
    }
    out
}

/// An ASCII decimal digit.
pub open spec fn is_digit(c: char) -> bool {
    0x30 <= c as u32 <= 0x39
}

/// Numeric value of an ASCII decimal digit.
pub open spec fn digit_val(c: char) -> nat {
    (c as u32 - 0x30) as nat
}

/// A nonempty string of ASCII decimal digits.
pub open spec fn all_digits(s: Seq<char>) -> bool {
    s.len() > 0 && forall|k: int| 0 <= k < s.len() ==> is_digit(#[trigger] s[k])
}

/// Value of a digit string read in base ten.
pub open spec fn dec_val(s: Seq<char>) -> nat
    decreases s.len(),
{
    if s.len() == 0 {
        0
    } else {
        dec_val(s.drop_last()) * 10 + digit_val(s.last())
    }
}

/// A digit string is worth at least any of its prefixes.
proof fn lemma_dec_val_take(s: Seq<char>, k: int)
    requires
        0 <= k <= s.len(),
    ensures
        dec_val(s.take(k)) <= dec_val(s),
    decreases s.len(),
{
    if k == s.len() {
        assert(s.take(k) =~= s);
    } else if s.len() > 0 {
        lemma_dec_val_take(s.drop_last(), k);
        assert(s.drop_last().take(k) =~= s.take(k));
    }
}

/// What `str::parse` returns for an unsigned integer type with the given
/// maximum: the base-ten value of the digits after an optional leading `+`,
/// or nothing on an empty or non-digit body or a value over the maximum.
pub open spec fn parse_uint_spec(s: Seq<char>, max: nat) -> Option<nat> {
    let body = if s.len() > 0 && s[0] == '+' {
        s.skip(1)
    } else {
        s
    };
    if all_digits(body) && dec_val(body) <= max {
        Some(dec_val(body))
    } else {
        None
    }
}

/// What `str::parse::<u16>` returns.
pub open spec fn parse_u16_spec(s: Seq<char>) -> Option<u16> {
    match parse_uint_spec(s, 0xFFFF) {
        Some(v) => Some(v as u16),
        None => None,
    }
}

/// What `str::parse::<u8>` returns.
pub open spec fn parse_u8_spec(s: Seq<char>) -> Option<u8> {
    match parse_uint_spec(s, 0xFF) {
        Some(v) => Some(v as u8),
        None => None,
    }
}

/// Base-ten parser shared by the sized parsers.
fn parse_dec(cs: &Vec<char>, max_v: u32) -> (r: Option<u32>)
    requires
        9 <= max_v < 0x1000_0000,
    ensures
        match r {
            Some(v) => parse_uint_spec(cs@, max_v as nat) == Some(v as nat),
            None => parse_uint_spec(cs@, max_v as nat) is None,
        },
{
    let start: usize = if cs.len() > 0 && cs[0] == '+' {
        1
    } else {
        0
    };
    let ghost body = if start == 1 {
        cs@.skip(1)
    } else {
        cs@
    };
    if start == cs.len() {
        return None;
    }
    let n = cs.len();
    let mut val: u32 = 0;
    let mut j: usize = start;
    while j < n
        invariant
            start <= j <= n,
            n == cs@.len(),
            start < n,
            9 <= max_v < 0x1000_0000,
            start == 0 || start == 1,
            body == (if start == 1 {
                cs@.skip(1)
            } else {
                cs@
            }),
            start == 1 ==> cs@.len() > 0 && cs@[0] == '+',
            start == 0 ==> !(cs@.len() > 0 && cs@[0] == '+'),
            body.len() > 0,
            forall|k: int| 0 <= k < j - start ==> is_digit(#[trigger] body[k]),
            val as nat == dec_val(body.take(j - start)),
            val <= max_v,
        decreases n - j,
    {
        let c = cs[j];
        let u = c as u32;
        if !(0x30 <= u && u <= 0x39) {
            proof {
                assert(body[j - start] == cs@[j as int]);
                assert(!is_digit(body[j - start]));
            }
            return None;
        }
        let d = u - 0x30;
        proof {
            assert(body[j - start] == cs@[j as int]);
            assert(body.take(j + 1 - start).drop_last() =~= body.take(j - start));
            assert(body.take(j + 1 - start).last() == body[j - start]);
        }
        if val > (max_v - d) / 10 {
            proof {
                assert(val * 10 + d > max_v) by (nonlinear_arith)
                    requires
                        val > (max_v - d) / 10,
                        d <= 9,
                        max_v >= d,
                ;
                assert(dec_val(body.take(j + 1 - start)) > max_v);
                lemma_dec_val_take(body, j + 1 - start);
            }
            return None;
        }
        proof {
            assert(val * 10 + d <= max_v) by (nonlinear_arith)
                requires
                    val <= (max_v - d) / 10,
                    d <= 9,
                    d <= max_v,
            ;
        }
        val = val * 10 + d;
        j += 1;
    }
    proof {
        assert(body.take(n - start) =~= body);
        assert(all_digits(body));
    }
    Some(val)
}

/// What `str::parse::<u16>` returns on this string.
pub fn parse_u16(s: &str) -> (r: Option<u16>)
    ensures
        r == parse_u16_spec(s@),
{
    let cs = chars_of(s);
    match parse_dec(&cs, 0xFFFF) {
        Some(v) => Some(v as u16),
        None => None,
    }
}

/// What `str::parse::<u8>` returns on this string.
pub fn parse_u8(s: &str) -> (r: Option<u8>)
    ensures
        r == parse_u8_spec(s@),
{
    let cs = chars_of(s);
    match parse_dec(&cs, 0xFF) {
        Some(v) => Some(v as u8),
        None => None,
    }
}

/// The digit character for a value below ten.
pub open spec fn digit_char(d: nat) -> char {
    if d == 0 {
        '0'
    } else if d == 1 {
        '1'
    } else if d == 2 {
        '2'
    } else if d == 3 {
        '3'
    } else if d == 4 {
        '4'
    } else if d == 5 {
        '5'
    } else if d == 6 {
        '6'
    } else if d == 7 {
        '7'
    } else if d == 8 {
        '8'
    } else {
        '9'
    }
}

/// Shortest base-ten rendering of a number, as `Display` formats it.
pub open spec fn dec_str(n: nat) -> Seq<char>
    decreases n,
{
    if n < 10 {
        seq![digit_char(n)]
    } else {
        dec_str(n / 10).push(digit_char(n % 10))
    }
}

/// Executable digit character.
fn digit_char_of(d: u32) -> (c: char)
    requires
        d < 10,
    ensures
        c == digit_char(d as nat),
{
    match d {
        0 => '0',
        1 => '1',
        2 => '2',
        3 => '3',
        4 => '4',
        5 => '5',
        6 => '6',
        7 => '7',
        8 => '8',
        _ => '9',
    }
}

/// Renders a number in base ten, as `Display` does.
pub fn u32_to_string(n: u32) -> (r: String)
    ensures
        r@ == dec_str(n as nat),
{
    let mut digits: Vec<char> = Vec::new();
    let mut m = n;
    while m >= 10
        invariant
            dec_str(n as nat) == dec_str(m as nat) + digits@.reverse(),
        decreases m,
    {
        let d = m % 10;
        proof {
            assert(digits@.push(digit_char(d as nat)).reverse() =~= seq![digit_char(d as nat)]
                + digits@.reverse());
            assert(dec_str(m as nat) == dec_str((m / 10) as nat).push(digit_char((m % 10) as nat)));
            assert(dec_str((m / 10) as nat).push(digit_char(d as nat)) + digits@.reverse()
                =~= dec_str((m / 10) as nat) + (seq![digit_char(d as nat)] + digits@.reverse()));
        }
        digits.push(digit_char_of(d));
        m = m / 10;
    }
    let d = digit_char_of(m);
    proof {
        assert(dec_str(m as nat) == seq![digit_char(m as nat)]);
        assert(seq![d] + digits@.reverse() =~= (seq![d] + digits@.reverse()));
    }
    let mut out = String::new();
    push_char(&mut out, d);
    let mut j = digits.len();
    proof {
        assert(out@ =~= (seq![d] + digits@.reverse()).take(1));
        assert(dec_str(n as nat) == seq![d] + digits@.reverse());
    }
    while j > 0
        invariant
            j <= digits@.len(),
            out@ == dec_str(n as nat).take(dec_str(n as nat).len() - j),
            dec_str(n as nat) == seq![d] + digits@.reverse(),
        decreases j,
    {
        let c = digits[j - 1];
        proof {
            let full = dec_str(n as nat);
            assert(digits@.reverse()[digits@.len() - j] == digits@[j - 1]);
            assert(full[full.len() - j] == digits@.reverse()[digits@.len() - j]);
            assert(full.take(full.len() - (j - 1)) =~= full.take(full.len() - j).push(
                full[full.len() - j],
            ));
        }
        push_char(&mut out, c);
        j -= 1;
    }
    proof {
        let full = dec_str(n as nat);
        assert(full.take(full.len() as int) =~= full);
    }
    out
}

/// A string built from the given characters.
pub fn string_of_chars(v: &Vec<char>) -> (r: String)
    ensures
        r@ == v@,
{
    let mut out = String::new();
    let n = v.len();
    let mut i: usize = 0;
    while i < n
        invariant
            i <= n,
            n == v@.len(),
            out@ == v@.take(i as int),
        decreases n - i,
    {
        proof {
            assert(v@.take(i + 1 as int) =~= v@.take(i as int).push(v@[i as int]));
        }
        push_char(&mut out, v[i]);
        i += 1;
    }
    proof {
        assert(v@.take(n as int) =~= v@);
    }
    out
}

/// What `str::trim` returns: the string without leading and trailing
/// whitespace.
pub open spec fn trim_spec(s: Seq<char>) -> Seq<char>
    decreases s.len(),
{
    if s.len() == 0 {
        s
    } else if is_ws(s[0]) {
        trim_spec(s.skip(1))
    } else if is_ws(s.last()) {
        trim_spec(s.drop_last())
    } else {
        s
    }
}

/// Drops leading and trailing whitespace characters.
pub fn trim_chars(v: &Vec<char>) -> (r: Vec<char>)
    ensures
        r@ == trim_spec(v@),
{
    let n = v.len();
    let mut a: usize = 0;
    proof {
        assert(v@.skip(0) =~= v@);
    }
    while a < n && is_space_char(v[a])
        invariant
            a <= n,
            n == v@.len(),
            trim_spec(v@) == trim_spec(v@.skip(a as int)),
        decreases n - a,
    {
        proof {
            let t = v@.skip(a as int);
            assert(t[0] == v@[a as int]);
            assert(t.skip(1) =~= v@.skip(a + 1 as int));
        }
        a += 1;
    }
    let mut b: usize = n;
    while b > a && is_space_char(v[b - 1])
        invariant
            a <= b <= n,
            n == v@.len(),
            a < n ==> !is_ws(v@[a as int]),
            trim_spec(v@) == trim_spec(v@.subrange(a as int, b as int)),
        decreases b,
    {
        proof {
            let t = v@.subrange(a as int, b as int);
            assert(t[0] == v@[a as int]);
            assert(t.last() == v@[b - 1]);
            assert(t.drop_last() =~= v@.subrange(a as int, b - 1));
        }
        b -= 1;
    }
    let mut r: Vec<char> = Vec::new();
    let mut i: usize = a;
    while i < b
        invariant
            a <= i <= b <= n,
            n == v@.len(),
            r@ == v@.subrange(a as int, i as int),
        decreases b - i,
    {
        proof {
            assert(v@.subrange(a as int, i + 1 as int) =~= v@.subrange(a as int, i as int).push(
                v@[i as int],
            ));
        }
        r.push(v[i]);
        i += 1;
    }
    proof {
        let t = v@.subrange(a as int, b as int);
        if a < b {
            assert(t[0] == v@[a as int]);
            assert(t.last() == v@[b - 1]);
            assert(trim_spec(t) == t);
        } else {
            assert(t =~= Seq::<char>::empty());
            assert(trim_spec(t) == t);
        }
        assert(r@ =~= t);
    }
    r
}

/// The needle occurs contiguously in the haystack.
pub open spec fn has_substr(s: Seq<char>, pat: Seq<char>) -> bool {
    exists|i: int|
        0 <= i && i + pat.len() <= s.len() && #[trigger] s.subrange(i, i + pat.len()) == pat
}

/// Whether the needle occurs contiguously in the haystack.
pub fn has_substring(hay: &Vec<char>, pat: &Vec<char>) -> (r: bool)
    ensures
        r == has_substr(hay@, pat@),
{
    let n = hay.len();
    let m = pat.len();
    if m > n {
        proof {
            if has_substr(hay@, pat@) {
                let i = choose|i: int|
                    0 <= i && i + pat@.len() <= hay@.len() && #[trigger] hay@.subrange(
                        i,
                        i + pat@.len(),
                    ) == pat@;
                assert(false);
            }
        }
        return false;
    }
    let mut i: usize = 0;
    while i <= n - m
        invariant
            m <= n,
            n == hay@.len(),
            m == pat@.len(),
            i <= n - m + 1,
            forall|i2: int|
                0 <= i2 < i ==> #[trigger] hay@.subrange(i2, i2 + pat@.len()) != pat@,
        decreases n - m + 1 - i,
    {
        let mut okm = true;
        let mut j: usize = 0;
        while j < m
            invariant
                j <= m,
                i + m <= n,
                n == hay@.len(),
                m == pat@.len(),
                okm <==> (forall|k: int| 0 <= k < j ==> hay@[i + k] == #[trigger] pat@[k]),
            decreases m - j,
        {
            if hay[i + j] != pat[j] {
                okm = false;
            }
            j += 1;
        }
        if okm {
            proof {
                assert(hay@.subrange(i as int, i + pat@.len()) =~= pat@);
            }
            return true;
        }
        proof {
            if hay@.subrange(i as int, i + pat@.len()) == pat@ {
                assert(forall|k: int|
                    0 <= k < m ==> hay@[i + k] == #[trigger] pat@[k]) by {
                    assert forall|k: int| 0 <= k < m implies hay@[i + k] == #[trigger] pat@[k] by {
                        assert(pat@[k] == hay@.subrange(i as int, i + pat@.len())[k]);
                    }
                }
                assert(false);
            }
        }
        i += 1;
    }
    proof {
        if has_substr(hay@, pat@) {
            let i2 = choose|i2: int|
                0 <= i2 && i2 + pat@.len() <= hay@.len() && #[trigger] hay@.subrange(
                    i2,
                    i2 + pat@.len(),
                ) == pat@;
            assert(hay@.subrange(i2, i2 + pat@.len()) == pat@);
            assert(false);
        }
    }
    false
}

/// Index of the last occurrence of a character, if any.
pub open spec fn rfind_spec(s: Seq<char>, c: char) -> Option<int>
    decreases s.len(),
{
    if s.len() == 0 {
        None
    } else if s.last() == c {
        Some(s.len() - 1)
    } else {
        rfind_spec(s.drop_last(), c)
    }
}

/// Finds the last occurrence of a character.
pub fn rfind_char(v: &Vec<char>, c: char) -> (r: Option<usize>)
    ensures
        match r {
            Some(i) => i < v@.len() && rfind_spec(v@, c) == Some(i as int),
            None => rfind_spec(v@, c) is None,
        },
{
    let mut b = v.len();
    proof {
        assert(v@.take(v@.len() as int) =~= v@);
    }
    while b > 0
        invariant
            b <= v@.len(),
            rfind_spec(v@, c) == rfind_spec(v@.take(b as int), c),
        decreases b,
    {
        proof {
            let t = v@.take(b as int);
            assert(t.last() == v@[b - 1]);
            assert(t.drop_last() =~= v@.take(b - 1));
        }
        if v[b - 1] == c {
            return Some(b - 1);
        }
        b -= 1;
    }
    proof {
        assert(v@.take(0) =~= Seq::<char>::empty());
    }
    None
}

/// Strict lexicographic order on character sequences, by code point; the
/// order `str`'s own comparison gives.
pub open spec fn seq_lt(a: Seq<char>, b: Seq<char>) -> bool
    decreases a.len(),
{
    if a.len() == 0 {
        b.len() > 0
    } else if b.len() == 0 {
        false
    } else if (a[0] as u32) < (b[0] as u32) {
        true
    } else if a[0] == b[0] {
        seq_lt(a.skip(1), b.skip(1))
    } else {
        false
    }
}

/// The order is strict and total: unequal strings compare one way only.
pub proof fn lemma_seq_lt_total(a: Seq<char>, b: Seq<char>)
    ensures
        seq_lt(a, b) ==> !seq_lt(b, a),
        !seq_lt(a, b) && !seq_lt(b, a) ==> a == b,
    decreases a.len(),
{
    if a.len() > 0 && b.len() > 0 {
        vstd::utf8::char_u32_cast(a[0], a[0] as u32);
        vstd::utf8::char_u32_cast(b[0], b[0] as u32);
        lemma_seq_lt_total(a.skip(1), b.skip(1));
        if !seq_lt(a, b) && !seq_lt(b, a) {
            assert(a[0] == b[0]);
            assert(a.skip(1) == b.skip(1));
            assert forall|k: int| 0 <= k < a.len() implies a[k] == b[k] by {
                if k > 0 {
                    assert(a[k] == a.skip(1)[k - 1]);
                    assert(b[k] == b.skip(1)[k - 1]);
                }
            }
            assert(a =~= b);
        }
    }
}

/// The order is transitive.
pub proof fn lemma_seq_lt_trans(a: Seq<char>, b: Seq<char>, c: Seq<char>)
    requires
        seq_lt(a, b),
        seq_lt(b, c),
    ensures
        seq_lt(a, c),
    decreases a.len(),
{
    if a.len() > 0 && b.len() > 0 && c.len() > 0 {
        if a[0] == b[0] && b[0] == c[0] {
            lemma_seq_lt_trans(a.skip(1), b.skip(1), c.skip(1));
        }
    }
}

/// Compares two character sequences lexicographically.
pub fn chars_lt(a: &Vec<char>, b: &Vec<char>) -> (r: bool)
    ensures
        r == seq_lt(a@, b@),
{
    let na = a.len();
    let nb = b.len();
    let mut i: usize = 0;
    proof {
        assert(a@.skip(0) =~= a@);
        assert(b@.skip(0) =~= b@);
    }
    while i < na && i < nb
        invariant
            i <= na,
            i <= nb,
            na == a@.len(),
            nb == b@.len(),
            seq_lt(a@, b@) == seq_lt(a@.skip(i as int), b@.skip(i as int)),
        decreases na - i,
    {
        let ca = a[i];
        let cb = b[i];
        proof {
            assert(a@.skip(i as int)[0] == a@[i as int]);
            assert(b@.skip(i as int)[0] == b@[i as int]);
            assert(a@.skip(i as int).skip(1) =~= a@.skip(i + 1 as int));
            assert(b@.skip(i as int).skip(1) =~= b@.skip(i + 1 as int));
        }
        if (ca as u32) < (cb as u32) {
            return true;
        }
        if (ca as u32) > (cb as u32) {
            proof {
                assert(ca != cb);
            }
            return false;
        }
        proof {
            vstd::utf8::char_u32_cast(ca, ca as u32);
            vstd::utf8::char_u32_cast(cb, cb as u32);
            assert(ca == cb);
        }
        i += 1;
    }
    proof {
        assert(a@.skip(i as int).len() == na - i);
        assert(b@.skip(i as int).len() == nb - i);
    }
    i < nb
}

/// What `str::to_lowercase` returns; the result depends on the characters
/// alone.
pub uninterp spec fn lower_of(s: Seq<char>) -> Seq<char>;

/// Relies on `str::to_lowercase`: the Unicode-lowercased text, a function of
/// the characters alone.
#[verifier::external_body]
pub fn lowercase(s: &str) -> (r: String)
    ensures
        r@ == lower_of(s@),
{
    s.to_lowercase()
}

/// A single word as produced by [`words_of`]: nonempty and whitespace-free.
pub open spec fn word_wf(w: Seq<char>) -> bool {
    w.len() > 0 && forall|k: int| 0 <= k < w.len() ==> !is_ws(#[trigger] w[k])
}

/// Every word in the list is well formed.
pub open spec fn words_wf(ws: Seq<Seq<char>>) -> bool {
    forall|j: int| 0 <= j < ws.len() ==> word_wf(#[trigger] ws[j])
}

/// The words of any string are nonempty and whitespace-free.
pub proof fn lemma_words_wf(s: Seq<char>)
    ensures
        words_wf(words_of(s)),
    decreases s.len(),
{
    if s.len() == 0 {
    } else if is_ws(s[0]) {
        lemma_words_wf(s.skip(1));
    } else {
        lemma_word_len(s);
        let k = word_len(s) as int;
        let word = s.take(k);
        lemma_words_wf(s.skip(k));
        assert(word_wf(word));
        let ws = words_of(s);
        assert forall|j: int| 0 <= j < ws.len() implies word_wf(#[trigger] ws[j]) by {
            if j > 0 {
                assert(ws[j] == words_of(s.skip(k))[j - 1]);
            }
        }
    }
}

/// A whitespace-free prefix followed by whitespace (or nothing) is exactly
/// the maximal word prefix.
proof fn lemma_word_len_concat(a: Seq<char>, b: Seq<char>)
    requires
        forall|k: int| 0 <= k < a.len() ==> !is_ws(#[trigger] a[k]),
        b.len() == 0 || is_ws(b[0]),
    ensures
        word_len(a + b) == a.len(),
    decreases a.len(),
{
    if a.len() == 0 {
        assert(a + b =~= b);
    } else {
        assert((a + b)[0] == a[0]);
        assert((a + b).skip(1) =~= a.skip(1) + b);
        lemma_word_len_concat(a.skip(1), b);
    }
}

/// Leading whitespace does not change the word list.
proof fn lemma_words_prepend_ws(c: char, x: Seq<char>)
    requires
        is_ws(c),
    ensures
        words_of(seq![c] + x) == words_of(x),
{
    assert((seq![c] + x)[0] == c);
    assert((seq![c] + x).skip(1) =~= x);
}

/// A well-formed word followed by whitespace (or nothing) heads the word
/// list.
proof fn lemma_words_word_prefix(a: Seq<char>, b: Seq<char>)
    requires
        word_wf(a),
        b.len() == 0 || is_ws(b[0]),
    ensures
        words_of(a + b) == seq![a] + words_of(b),
{
    assert((a + b)[0] == a[0]);
    lemma_word_len_concat(a, b);
    assert((a + b).take(a.len() as int) =~= a);
    assert((a + b).skip(a.len() as int) =~= b);
}

/// Splitting a space-prefixed join recovers exactly the joined words.
proof fn lemma_join_pre_words(ws: Seq<Seq<char>>)
    requires
        words_wf(ws),
    ensures
        words_of(join_pre(ws)) == ws,
    decreases ws.len(),
{
    if ws.len() == 0 {
        assert(words_of(join_pre(ws)) =~= ws);
    } else {
        let rest = join_pre(ws.skip(1));
        assert(join_pre(ws) == seq![' '] + (ws[0] + rest));
        lemma_words_prepend_ws(' ', ws[0] + rest);
        if ws.len() > 1 {
            assert(rest == seq![' '] + ws[1] + join_pre(ws.skip(1).skip(1)));
            assert(rest[0] == ' ');
        }
        lemma_words_word_prefix(ws[0], rest);
        lemma_join_pre_words(ws.skip(1));
        assert(seq![ws[0]] + ws.skip(1) =~= ws);
    }
}

/// Splitting a joined word list recovers exactly the joined words.
proof fn lemma_words_join(ws: Seq<Seq<char>>)
    requires
        words_wf(ws),
    ensures
        words_of(join_spaces(ws)) == ws,
{
    if ws.len() == 0 {
        assert(words_of(join_spaces(ws)) =~= ws);
    } else {
        let rest = join_pre(ws.skip(1));
        if ws.len() > 1 {
            assert(rest == seq![' '] + ws[1] + join_pre(ws.skip(1).skip(1)));
            assert(rest[0] == ' ');
        }
        lemma_words_word_prefix(ws[0], rest);
        lemma_join_pre_words(ws.skip(1));
        assert(seq![ws[0]] + ws.skip(1) =~= ws);
    }
}

/// Normalization is idempotent: normalizing an already-normalized string
/// changes nothing.
pub proof fn lemma_normalize_idempotent(s: Seq<char>)
    ensures
        normalize_spec(normalize_spec(s)) == normalize_spec(s),
{
    lemma_words_wf(s);
    lemma_words_join(words_of(s));
}

/// A string whose characters are all whitespace (the empty string included)
/// normalizes to the empty string.
pub proof fn lemma_normalize_all_ws(s: Seq<char>)
    requires
        forall|k: int| 0 <= k < s.len() ==> is_ws(#[trigger] s[k]),
    ensures
        normalize_spec(s) == Seq::<char>::empty(),
    decreases s.len(),
{
    if s.len() > 0 {
        lemma_normalize_all_ws(s.skip(1));
        assert(forall|k: int|
            0 <= k < s.skip(1).len() ==> is_ws(#[trigger] s.skip(1)[k]));
    }
}

} // verus!
