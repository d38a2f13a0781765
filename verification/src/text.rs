//! Character-level utilities shared by both codec directions.
//!
//! All scanning and rendering works on `Vec<char>` / `&[char]`, so that every
//! operation has an exact model over `Seq<char>`.
use vstd::prelude::*;

verus! {

broadcast use vstd::std_specs::vec::group_vec_axioms, vstd::seq::group_seq_axioms, vstd::utf8::char_u32_cast;

/// The format's whitespace: the ASCII blank characters.
pub open spec fn is_space(c: char) -> bool {
    c == ' ' || c == '\t' || c == '\n' || c == '\r' || c == '\u{b}' || c == '\u{c}'
}

/// Tests one character against the whitespace set.
pub fn space(c: char) -> (r: bool)
    ensures
        r == is_space(c),
{
    c == ' ' || c == '\t' || c == '\n' || c == '\r' || c == '\u{b}' || c == '\u{c}'
}

/// An ASCII decimal digit.
pub open spec fn is_digit(c: char) -> bool {
    48 <= c as u32 <= 57
}

/// The numeric value of a digit character.
pub open spec fn digit_val(c: char) -> int {
    c as u32 - 48
}

/// The views of a list of character buffers.
pub open spec fn views_of(r: Seq<Vec<char>>) -> Seq<Seq<char>> {
    Seq::new(r.len(), |i: int| r[i]@)
}

/// Collects the characters of a string, in order.
pub fn str_to_chars(s: &str) -> (r: Vec<char>)
    ensures
        r@ == s@,
{
    let n: usize = s.unicode_len();
    let mut r: Vec<char> = Vec::new();
    let mut i: usize = 0;
    while i < n
        invariant
            i <= n,
            n == s@.len(),
            r@ == s@.subrange(0, i as int),
        decreases n - i,
    {
        let c = s.get_char(i);
        r.push(c);
        assert(r@ =~= s@.subrange(0, i + 1 as int));
        i += 1;
    }
    assert(r@ =~= s@);
    r
}

/// Relies on `String`'s `FromIterator<char>` (via `Iterator::collect`):
/// collecting an iterator of characters yields the string of exactly those
/// characters in order.
#[verifier::external_body]
pub fn chars_to_string(v: &[char]) -> (s: String)
    ensures
        s@ == v@,
{
    v.iter().collect()
}

/// Whether two character slices hold the same text.
pub fn chars_eq(a: &[char], b: &[char]) -> (r: bool)
    ensures
        r == (a@ == b@),
{
    if a.len() != b.len() {
        assert(a@.len() != b@.len());
        return false;
    }
    let n = a.len();
    let mut i: usize = 0;
    while i < n
        invariant
            i <= n,
            n == a@.len() == b@.len(),
            forall|j: int| 0 <= j < i ==> a@[j] == b@[j],
        decreases n - i,
    {
        if a[i] != b[i] {
            return false;
        }
        i += 1;
    }
    assert(a@ =~= b@);
    true
}

/// Whether a character slice holds exactly the text of `s`.
pub fn chars_eq_str(a: &[char], s: &str) -> (r: bool)
    ensures
        r == (a@ == s@),
{
    let b = str_to_chars(s);
    chars_eq(a, b.as_slice())
}

/// The input without its leading whitespace.
pub open spec fn spec_trim_start(s: Seq<char>) -> Seq<char>
    decreases s.len(),
{
    if s.len() > 0 && is_space(s[0]) {
        spec_trim_start(s.drop_first())
    } else {
        s
    }
}

/// The input without its trailing whitespace.
pub open spec fn spec_trim_end(s: Seq<char>) -> Seq<char>
    decreases s.len(),
{
    if s.len() > 0 && is_space(s.last()) {
        spec_trim_end(s.drop_last())
    } else {
        s
    }
}

/// The input without leading or trailing whitespace.
pub open spec fn spec_trim(s: Seq<char>) -> Seq<char> {
    spec_trim_end(spec_trim_start(s))
}

/// Strips leading whitespace, as [`spec_trim_start`] describes.
pub fn trim_start(s: &[char]) -> (r: &[char])
    ensures
        r@ == spec_trim_start(s@),
    decreases s@.len(),
{
    if s.len() > 0 && space(s[0]) {
        let sub = &s[1..s.len()];
        assert(sub@ =~= s@.drop_first());
        trim_start(sub)
    } else {
        s
    }
}

/// Strips trailing whitespace, as [`spec_trim_end`] describes.
pub fn trim_end(s: &[char]) -> (r: &[char])
    ensures
        r@ == spec_trim_end(s@),
    decreases s@.len(),
{
    if s.len() > 0 && space(s[s.len() - 1]) {
        let sub = &s[0..s.len() - 1];
        assert(sub@ =~= s@.drop_last());
        trim_end(sub)
    } else {
        s
    }
}

/// Strips surrounding whitespace, as [`spec_trim`] describes.
pub fn trim(s: &[char]) -> (r: &[char])
    ensures
        r@ == spec_trim(s@),
{
    trim_end(trim_start(s))
}

/// The length of the leading run of non-whitespace characters.
pub open spec fn spec_token_len(s: Seq<char>) -> nat
    decreases s.len(),
{
    if s.len() == 0 || is_space(s[0]) {
        0
    } else {
        1 + spec_token_len(s.drop_first())
    }
}

/// The token run is the longest whitespace-free prefix.
pub proof fn lemma_token_len(s: Seq<char>)
    ensures
        spec_token_len(s) <= s.len(),
        forall|j: int| 0 <= j < spec_token_len(s) ==> !is_space(s[j]),
        spec_token_len(s) < s.len() ==> is_space(s[spec_token_len(s) as int]),
    decreases s.len(),
{
    if s.len() > 0 && !is_space(s[0]) {
        lemma_token_len(s.drop_first());
        assert forall|j: int| 0 <= j < spec_token_len(s) implies !is_space(s[j]) by {
            if j > 0 {
                assert(s.drop_first()[j - 1] == s[j]);
            }
        }
    }
}

/// The length of the leading run of characters other than `c`.
pub open spec fn spec_run_until(s: Seq<char>, c: char) -> nat
    decreases s.len(),
{
    if s.len() == 0 || s[0] == c {
        0
    } else {
        1 + spec_run_until(s.drop_first(), c)
    }
}

/// The run is exactly the text before the first occurrence of `c`.
pub proof fn lemma_run_until(s: Seq<char>, c: char)
    ensures
        spec_run_until(s, c) <= s.len(),
        forall|j: int| 0 <= j < spec_run_until(s, c) ==> s[j] != c,
        spec_run_until(s, c) < s.len() ==> s[spec_run_until(s, c) as int] == c,
    decreases s.len(),
{
    if s.len() > 0 && s[0] != c {
        lemma_run_until(s.drop_first(), c);
        assert forall|j: int| 0 <= j < spec_run_until(s, c) implies s[j] != c by {
            if j > 0 {
                assert(s.drop_first()[j - 1] == s[j]);
            }
        }
    }
}

/// Executes the scan described by [`spec_run_until`].
pub fn run_until(s: &[char], c: char) -> (r: usize)
    ensures
        r == spec_run_until(s@, c),
{
    proof {
        lemma_run_until(s@, c);
    }
    let n = s.len();
    let mut i: usize = 0;
    while i < n
        invariant
            i <= n,
            n == s@.len(),
            forall|j: int| 0 <= j < i ==> s@[j] != c,
        decreases n - i,
    {
        if s[i] == c {
            proof {
                lemma_run_until(s@, c);
                if spec_run_until(s@, c) < i {
                    assert(s@[spec_run_until(s@, c) as int] == c);
                }
            }
            return i;
        }
        i += 1;
    }
    proof {
        if spec_run_until(s@, c) < n {
            assert(s@[spec_run_until(s@, c) as int] == c);
        }
    }
    n
}

/// The length of the leading run of characters that are neither `a` nor `b`.
pub open spec fn spec_run_until2(s: Seq<char>, a: char, b: char) -> nat
    decreases s.len(),
{
    if s.len() == 0 || s[0] == a || s[0] == b {
        0
    } else {
        1 + spec_run_until2(s.drop_first(), a, b)
    }
}

/// The run is exactly the text before the first `a` or `b`.
pub proof fn lemma_run_until2(s: Seq<char>, a: char, b: char)
    ensures
        spec_run_until2(s, a, b) <= s.len(),
        forall|j: int| 0 <= j < spec_run_until2(s, a, b) ==> s[j] != a && s[j] != b,
        spec_run_until2(s, a, b) < s.len() ==> (s[spec_run_until2(s, a, b) as int] == a
            || s[spec_run_until2(s, a, b) as int] == b),
    decreases s.len(),
{
    if s.len() > 0 && s[0] != a && s[0] != b {
        lemma_run_until2(s.drop_first(), a, b);
        assert forall|j: int| 0 <= j < spec_run_until2(s, a, b) implies s[j] != a && s[j] != b by {
            if j > 0 {
                assert(s.drop_first()[j - 1] == s[j]);
            }
        }
    }
}

/// Executes the scan described by [`spec_run_until2`].
pub fn run_until2(s: &[char], a: char, b: char) -> (r: usize)
    ensures
        r == spec_run_until2(s@, a, b),
{
    proof {
        lemma_run_until2(s@, a, b);
    }
    let n = s.len();
    let mut i: usize = 0;
    while i < n
        invariant
            i <= n,
            n == s@.len(),
            forall|j: int| 0 <= j < i ==> s@[j] != a && s@[j] != b,
        decreases n - i,
    {
        if s[i] == a || s[i] == b {
            proof {
                lemma_run_until2(s@, a, b);
                if spec_run_until2(s@, a, b) < i {
                    assert(s@[spec_run_until2(s@, a, b) as int] == a || s@[spec_run_until2(
                        s@,
                        a,
                        b,
                    ) as int] == b);
                }
            }
            return i;
        }
        i += 1;
    }
    proof {
        if spec_run_until2(s@, a, b) < n {
            assert(s@[spec_run_until2(s@, a, b) as int] == a || s@[spec_run_until2(
                s@,
                a,
                b,
            ) as int] == b);
        }
    }
    n
}

/// Executes the scan described by [`spec_token_len`].
pub fn token_run(s: &[char]) -> (r: usize)
    ensures
        r == spec_token_len(s@),
{
    proof {
        lemma_token_len(s@);
    }
    let n = s.len();
    let mut i: usize = 0;
    while i < n
        invariant
            i <= n,
            n == s@.len(),
            forall|j: int| 0 <= j < i ==> !is_space(s@[j]),
        decreases n - i,
    {
        if space(s[i]) {
            proof {
                lemma_token_len(s@);
                if spec_token_len(s@) < i {
                    assert(is_space(s@[spec_token_len(s@) as int]));
                }
            }
            return i;
        }
        i += 1;
    }
    proof {
        if spec_token_len(s@) < n {
            assert(is_space(s@[spec_token_len(s@) as int]));
        }
    }
    n
}

/// The whitespace-separated tokens of the input, in order; no token is empty.
pub open spec fn spec_split_ws(s: Seq<char>) -> Seq<Seq<char>>
    decreases s.len(),
{
    if s.len() == 0 {
        Seq::empty()
    } else if is_space(s[0]) {
        spec_split_ws(s.drop_first())
    } else {
        proof {
            lemma_token_len(s);
        }
        seq![s.take(spec_token_len(s) as int)] + spec_split_ws(s.skip(spec_token_len(s) as int))
    }
}

/// Splits on whitespace, as [`spec_split_ws`] describes.
pub fn split_ws(s: &[char]) -> (r: Vec<Vec<char>>)
    ensures
        views_of(r@) == spec_split_ws(s@),
    decreases s@.len(),
{
    if s.len() == 0 {
        let r: Vec<Vec<char>> = Vec::new();
        assert(views_of(r@) =~= spec_split_ws(s@));
        r
    } else if space(s[0]) {
        let sub = &s[1..s.len()];
        assert(sub@ =~= s@.drop_first());
        split_ws(sub)
    } else {
        proof {
            lemma_token_len(s@);
        }
        let tl = token_run(s);
        let tok = vstd::slice::slice_to_vec(&s[0..tl]);
        let mut r = split_ws(&s[tl..s.len()]);
        let ghost r0 = r@;
        r.insert(0, tok);
        proof {
            let tln = spec_token_len(s@) as int;
            assert(s@.take(tln) =~= s@.subrange(0, tln));
            assert(views_of(r@) =~= seq![s@.take(tln)] + views_of(r0));
        }
        r
    }
}

/// The pieces of the input between occurrences of `c`, in order, kept even
/// when empty; there is always at least one piece.
pub open spec fn spec_split_char(s: Seq<char>, c: char) -> Seq<Seq<char>>
    decreases s.len(),
{
    let k = spec_run_until(s, c);
    if k == s.len() {
        seq![s]
    } else {
        proof {
            lemma_run_until(s, c);
        }
        seq![s.take(k as int)] + spec_split_char(s.skip(k as int + 1), c)
    }
}

/// Splits on a separator character, as [`spec_split_char`] describes.
pub fn split_char(s: &[char], c: char) -> (r: Vec<Vec<char>>)
    ensures
        views_of(r@) == spec_split_char(s@, c),
    decreases s@.len(),
{
    proof {
        lemma_run_until(s@, c);
    }
    let k = run_until(s, c);
    if k == s.len() {
        let mut r: Vec<Vec<char>> = Vec::new();
        r.push(vstd::slice::slice_to_vec(s));
        assert(views_of(r@) =~= seq![s@]);
        r
    } else {
        let piece = vstd::slice::slice_to_vec(&s[0..k]);
        let mut r = split_char(&s[k + 1..s.len()], c);
        let ghost r0 = r@;
        r.insert(0, piece);
        proof {
            assert(s@.take(k as int) =~= s@.subrange(0, k as int));
            assert(views_of(r@) =~= seq![s@.take(k as int)] + views_of(r0));
        }
        r
    }
}

/// The lines of the input: the pieces between newline characters, with no
/// line for empty input and none for a trailing newline.
pub open spec fn spec_split_nl(s: Seq<char>) -> Seq<Seq<char>>
    decreases s.len(),
{
    if s.len() == 0 {
        Seq::empty()
    } else {
        let k = spec_run_until(s, '\n');
        if k == s.len() {
            seq![s]
        } else {
            proof {
                lemma_run_until(s, '\n');
            }
            seq![s.take(k as int)] + spec_split_nl(s.skip(k as int + 1))
        }
    }
}

/// Splits into lines, as [`spec_split_nl`] describes.
pub fn split_nl(s: &[char]) -> (r: Vec<Vec<char>>)
    ensures
        views_of(r@) == spec_split_nl(s@),
    decreases s@.len(),
{
    if s.len() == 0 {
        let r: Vec<Vec<char>> = Vec::new();
        assert(views_of(r@) =~= spec_split_nl(s@));
        return r;
    }
    proof {
        lemma_run_until(s@, '\n');
    }
    let k = run_until(s, '\n');
    if k == s.len() {
        let mut r: Vec<Vec<char>> = Vec::new();
        r.push(vstd::slice::slice_to_vec(s));
        assert(views_of(r@) =~= seq![s@]);
        r
    } else {
        let piece = vstd::slice::slice_to_vec(&s[0..k]);
        let mut r = split_nl(&s[k + 1..s.len()]);
        let ghost r0 = r@;
        r.insert(0, piece);
        proof {
            assert(s@.take(k as int) =~= s@.subrange(0, k as int));
            assert(views_of(r@) =~= seq![s@.take(k as int)] + views_of(r0));
        }
        r
    }
}

/// Whether every character is an ASCII decimal digit.
pub open spec fn all_digits(s: Seq<char>) -> bool {
    forall|i: int| 0 <= i < s.len() ==> is_digit(s[i])
}

/// The value of a digit string, most significant digit first.
pub open spec fn spec_digits_val(s: Seq<char>) -> int
    decreases s.len(),
{
    if s.len() == 0 {
        0
    } else {
        spec_digits_val(s.drop_last()) * 10 + digit_val(s.last())
    }
}

/// The power of ten used to bound digit-string values.
pub open spec fn pow10(n: nat) -> int
    decreases n,
{
    if n == 0 {
        1
    } else {
        10 * pow10((n - 1) as nat)
    }
}

/// A digit string of length `n` is below the `n`-th power of ten.
pub proof fn lemma_digits_val_bound(s: Seq<char>)
    requires
        all_digits(s),
    ensures
        0 <= spec_digits_val(s) < pow10(s.len()),
    decreases s.len(),
{
    if s.len() > 0 {
        assert(forall|i: int| 0 <= i < s.drop_last().len() ==> is_digit(#[trigger] s.drop_last()[i]));
        lemma_digits_val_bound(s.drop_last());
    }
}

/// A digit other than `'0'` has a nonzero value.
pub proof fn lemma_nonzero_digit(c: char)
    requires
        is_digit(c),
        c != '0',
    ensures
        digit_val(c) >= 1,
{
    if c as u32 == 48 {
        assert('0' as u32 == 48);
        vstd::utf8::char_u32_cast(c, 48u32);
        vstd::utf8::char_u32_cast('0', 48u32);
    }
}

/// A digit string with a nonzero leading digit is at least its place value.
pub proof fn lemma_digits_val_lower(s: Seq<char>)
    requires
        all_digits(s),
        s.len() > 0,
        s[0] != '0',
    ensures
        spec_digits_val(s) >= pow10((s.len() - 1) as nat),
    decreases s.len(),
{
    if s.len() == 1 {
        assert(is_digit(s[0]));
        lemma_nonzero_digit(s[0]);
        assert(s =~= seq![s[0]]);
        assert(spec_digits_val(s) == spec_digits_val(s.drop_last()) * 10 + digit_val(s.last()));
        assert(s.drop_last() =~= Seq::<char>::empty());
    } else {
        assert(forall|i: int| 0 <= i < s.drop_last().len() ==> is_digit(#[trigger] s.drop_last()[i]));
        assert(s.drop_last()[0] == s[0]);
        lemma_digits_val_lower(s.drop_last());
        assert(is_digit(s.last()));
    }
}

/// Leading zeros do not change the value of a digit string.
pub proof fn lemma_strip_zero(t: Seq<char>)
    ensures
        spec_digits_val(seq!['0'] + t) == spec_digits_val(t),
    decreases t.len(),
{
    if t.len() == 0 {
        assert((seq!['0'] + t) =~= seq!['0']);
        assert(spec_digits_val(seq!['0']) == spec_digits_val(seq!['0'].drop_last()) * 10
            + digit_val('0'));
        assert(seq!['0'].drop_last() =~= Seq::<char>::empty());
    } else {
        lemma_strip_zero(t.drop_last());
        assert((seq!['0'] + t).drop_last() =~= seq!['0'] + t.drop_last());
        assert((seq!['0'] + t).last() == t.last());
    }
}

/// The signed-integer reading of a token, when the token is an optional
/// `+`/`-` sign followed by one or more digits and the value fits in `i64`.
pub open spec fn spec_parse_i64(s: Seq<char>) -> Option<int> {
    let signed = s.len() > 0 && (s[0] == '-' || s[0] == '+');
    let neg = s.len() > 0 && s[0] == '-';
    let ds = if signed {
        s.drop_first()
    } else {
        s
    };
    if ds.len() > 0 && all_digits(ds) {
        let v = if neg {
            -spec_digits_val(ds)
        } else {
            spec_digits_val(ds)
        };
        if -9223372036854775808 <= v <= 9223372036854775807 {
            Some(v)
        } else {
            None
        }
    } else {
        None
    }
}

/// Tests one character for being an ASCII decimal digit.
pub fn digit(c: char) -> (r: bool)
    ensures
        r == is_digit(c),
{
    let u = c as u32;
    48 <= u && u <= 57
}

/// Reads a signed machine integer, as [`spec_parse_i64`] describes.
pub fn parse_i64(s: &[char]) -> (r: Option<i64>)
    ensures
        match r {
            Some(v) => spec_parse_i64(s@) == Some(v as int),
            None => spec_parse_i64(s@) is None,
        },
{
    let signed = s.len() > 0 && (s[0] == '-' || s[0] == '+');
    let neg = s.len() > 0 && s[0] == '-';
    let ds: &[char] = if signed {
        &s[1..s.len()]
    } else {
        s
    };
    proof {
        if signed {
            assert(ds@ =~= s@.drop_first());
        }
    }
    if ds.len() == 0 {
        return None;
    }
    let n = ds.len();
    let mut i: usize = 0;
    while i < n
        invariant
            i <= n,
            n == ds@.len(),
            n > 0,
            signed == (s@.len() > 0 && (s@[0] == '-' || s@[0] == '+')),
            ds@ == (if signed {
                s@.drop_first()
            } else {
                s@
            }),
            forall|j: int| 0 <= j < i ==> is_digit(ds@[j]),
        decreases n - i,
    {
        if !digit(ds[i]) {
            assert(!all_digits(ds@));
            return None;
        }
        i += 1;
    }
    assert(all_digits(ds@));
    // Skip leading zeros; they do not change the value.
    let mut z: usize = 0;
    while z < n && ds[z] == '0'
        invariant
            z <= n,
            n == ds@.len(),
            forall|j: int| 0 <= j < z ==> ds@[j] == '0',
        decreases n - z,
    {
        z += 1;
    }
    let sig = &ds[z..n];
    proof {
        lemma_strip_zeros_front(ds@, z as int);
        assert(sig@ =~= ds@.skip(z as int));
        assert(spec_digits_val(ds@) == spec_digits_val(sig@));
        assert forall|j: int| 0 <= j < sig@.len() implies is_digit(#[trigger] sig@[j]) by {
            assert(sig@[j] == ds@[z + j]);
        }
    }
    if sig.len() > 19 {
        // At least 20 significant digits: the magnitude exceeds any `i64`.
        proof {
            lemma_digits_val_lower(sig@);
            lemma_pow10_value();
            lemma_pow10_mono(19, (sig@.len() - 1) as nat);
            assert(spec_digits_val(sig@) >= pow10(19));
            assert(spec_digits_val(ds@) >= 10000000000000000000);
            assert(spec_parse_i64(s@) is None);
        }
        return None;
    }
    let mut acc: i128 = 0;
    let m = sig.len();
    let mut k: usize = 0;
    proof {
        lemma_pow10_value();
    }
    while k < m
        invariant
            k <= m,
            m == sig@.len() <= 19,
            all_digits(sig@),
            acc == spec_digits_val(sig@.subrange(0, k as int)),
            0 <= acc < pow10(k as nat),
            pow10(19) == 10000000000000000000,
        decreases m - k,
    {
        proof {
            lemma_pow10_mono(k as nat, 18);
            assert(sig@.subrange(0, k + 1 as int).drop_last() =~= sig@.subrange(0, k as int));
            assert(forall|j: int|
                0 <= j < k + 1 ==> is_digit(#[trigger] sig@.subrange(0, k + 1 as int)[j]));
        }
        assert(is_digit(sig@[k as int]));
        let d = sig[k] as u32 - 48;
        acc = acc * 10 + d as i128;
        k += 1;
    }
    assert(sig@.subrange(0, m as int) =~= sig@);
    if neg {
        if acc > 9223372036854775808i128 {
            return None;
        }
        if acc == 9223372036854775808i128 {
            return Some(i64::MIN);
        }
        Some(-(acc as i64))
    } else {
        if acc > 9223372036854775807i128 {
            return None;
        }
        Some(acc as i64)
    }
}

/// Removing `z` leading zeros leaves the value of a digit string unchanged.
pub proof fn lemma_strip_zeros_front(s: Seq<char>, z: int)
    requires
        0 <= z <= s.len(),
        forall|j: int| 0 <= j < z ==> s[j] == '0',
    ensures
        spec_digits_val(s) == spec_digits_val(s.skip(z)),
    decreases z,
{
    if z > 0 {
        assert(s[0] == '0');
        assert(s =~= seq!['0'] + s.skip(1));
        lemma_strip_zero(s.skip(1));
        assert(spec_digits_val(s) == spec_digits_val(s.skip(1)));
        assert forall|j: int| 0 <= j < z - 1 implies s.skip(1)[j] == '0' by {
            assert(s.skip(1)[j] == s[j + 1]);
        }
        lemma_strip_zeros_front(s.skip(1), z - 1);
        assert(s.skip(1).skip(z - 1) =~= s.skip(z));
    } else {
        assert(s.skip(0) =~= s);
    }
}

/// Powers of ten are positive and grow with the exponent.
pub proof fn lemma_pow10_mono(a: nat, b: nat)
    requires
        a <= b,
    ensures
        pow10(a) <= pow10(b),
        pow10(a) >= 1,
    decreases b,
{
    if a < b {
        lemma_pow10_mono(a, (b - 1) as nat);
    } else if b > 0 {
        lemma_pow10_mono((a - 1) as nat, (b - 1) as nat);
    }
}

/// The power of ten just above the `i64` range, evaluated.
pub proof fn lemma_pow10_value()
    ensures
        pow10(19) == 10000000000000000000,
{
    reveal_with_fuel(pow10, 21);
}

/// The decimal rendering of an unsigned machine integer.
pub open spec fn spec_u64_chars(n: nat) -> Seq<char>
    decreases n,
{
    if n < 10 {
        seq![((48 + n) as u8) as char]
    } else {
        spec_u64_chars(n / 10).push(((48 + n % 10) as u8) as char)
    }
}

/// Renders an unsigned integer in decimal, as [`spec_u64_chars`] describes.
pub fn u64_chars(n: u64) -> (r: Vec<char>)
    ensures
        r@ == spec_u64_chars(n as nat),
    decreases n,
{
    if n < 10 {
        let mut r: Vec<char> = Vec::new();
        r.push((48 + n as u8) as char);
        assert(r@ =~= seq![((48 + n as nat) as u8) as char]);
        r
    } else {
        let mut r = u64_chars(n / 10);
        r.push((48 + (n % 10) as u8) as char);
        r
    }
}

/// The decimal rendering of a signed machine integer.
pub open spec fn spec_i64_chars(n: int) -> Seq<char> {
    if n < 0 {
        seq!['-'] + spec_u64_chars((-n) as nat)
    } else {
        spec_u64_chars(n as nat)
    }
}

/// Renders a signed integer in decimal, as [`spec_i64_chars`] describes.
pub fn i64_chars(n: i64) -> (r: Vec<char>)
    ensures
        r@ == spec_i64_chars(n as int),
{
    if n >= 0 {
        u64_chars(n as u64)
    } else {
        let m: u64 = if n == i64::MIN {
            9223372036854775808u64
        } else {
            (-n) as u64
        };
        let mut r = u64_chars(m);
        r.insert(0, '-');
        assert(r@ =~= seq!['-'] + spec_u64_chars(m as nat));
        r
    }
}

/// The input with every occurrence of `a` replaced by `b`.
pub open spec fn spec_replace(s: Seq<char>, a: char, b: char) -> Seq<char>
    decreases s.len(),
{
    if s.len() == 0 {
        s
    } else {
        spec_replace(s.drop_last(), a, b).push(
            if s.last() == a {
                b
            } else {
                s.last()
            },
        )
    }
}

/// Replacement works position by position.
pub proof fn lemma_replace(s: Seq<char>, a: char, b: char)
    ensures
        spec_replace(s, a, b).len() == s.len(),
        forall|i: int|
            0 <= i < s.len() ==> spec_replace(s, a, b)[i] == (if s[i] == a {
                b
            } else {
                s[i]
            }),
    decreases s.len(),
{
    if s.len() > 0 {
        lemma_replace(s.drop_last(), a, b);
        assert forall|i: int|
            0 <= i < s.len() implies spec_replace(s, a, b)[i] == (if s[i] == a {
            b
        } else {
            s[i]
        }) by {
            if i < s.len() - 1 {
                assert(s.drop_last()[i] == s[i]);
            }
        }
    }
}

/// Replaces every occurrence of one character, as [`spec_replace`] describes.
pub fn replace_char(s: &[char], a: char, b: char) -> (r: Vec<char>)
    ensures
        r@ == spec_replace(s@, a, b),
{
    let n = s.len();
    let mut r: Vec<char> = Vec::new();
    let mut i: usize = 0;
    while i < n
        invariant
            i <= n,
            n == s@.len(),
            r@ == spec_replace(s@.subrange(0, i as int), a, b),
        decreases n - i,
    {
        let c = s[i];
        if c == a {
            r.push(b);
        } else {
            r.push(c);
        }
        proof {
            assert(s@.subrange(0, i + 1 as int).drop_last() =~= s@.subrange(0, i as int));
            assert(s@.subrange(0, i + 1 as int).last() == s@[i as int]);
        }
        i += 1;
    }
    assert(s@.subrange(0, n as int) =~= s@);
    r
}

/// Lexicographic order on character sequences, by scalar value.
pub open spec fn spec_lex_le(a: Seq<char>, b: Seq<char>) -> bool
    decreases a.len(),
{
    if a.len() == 0 {
        true
    } else if b.len() == 0 {
        false
    } else if (a[0] as u32) < (b[0] as u32) {
        true
    } else if (a[0] as u32) > (b[0] as u32) {
        false
    } else {
        spec_lex_le(a.drop_first(), b.drop_first())
    }
}

/// Compares two texts, as [`spec_lex_le`] describes.
pub fn lex_le(a: &[char], b: &[char]) -> (r: bool)
    ensures
        r == spec_lex_le(a@, b@),
    decreases a@.len(),
{
    if a.len() == 0 {
        true
    } else if b.len() == 0 {
        false
    } else if (a[0] as u32) < (b[0] as u32) {
        true
    } else if (a[0] as u32) > (b[0] as u32) {
        false
    } else {
        let ra = &a[1..a.len()];
        let rb = &b[1..b.len()];
        assert(ra@ =~= a@.drop_first());
        assert(rb@ =~= b@.drop_first());
        lex_le(ra, rb)
    }
}

} // verus!
