//! String building.

use vstd::prelude::*;
use vstd::string::StrSliceExecFns;
use vstd::string::StringExecFns;

verus! {

/// `a` followed by `b`, as a new string.
pub fn concat(a: &str, b: &str) -> (r: String)
    ensures
        r@ == a@ + b@,
{
    let mut s = a.to_owned();
    s.append(b);
    s
}

/// Append `c` to `s`.
///
/// Calls `String::push`, which appends the one character.
#[verifier::external_body]
pub(crate) fn push_char(s: &mut String, c: char)
    ensures
        final(s)@ == old(s)@.push(c),
{
    s.push(c);
}

/// The decimal digit for `d` in `0..10`.
pub open spec fn digit(d: nat) -> char {
    (48 + d) as char
}

/// `n` written in decimal, most significant digit first, no leading zeros.
pub open spec fn decimal_spec(n: nat) -> Seq<char>
    decreases n,
{
    if n < 10 {
        seq![digit(n)]
    } else {
        decimal_spec(n / 10).push(digit(n % 10))
    }
}

/// `n` in decimal.
pub fn decimal(n: u64) -> (s: String)
    ensures
        s@ == decimal_spec(n as nat),
    decreases n,
{
    if n < 10 {
        let mut s = String::new();
        push_char(&mut s, ((48u8 + n as u8) as char));
        proof {
            assert(s@ =~= seq![digit(n as nat)]);
        }
        s
    } else {
        let mut s = decimal(n / 10);
        push_char(&mut s, ((48u8 + (n % 10) as u8) as char));
        s
    }
}

/// `c` is Unicode `White_Space`, the set `char::is_whitespace` tests.
pub open spec fn is_space(c: char) -> bool {
    let u = c as u32;
    (0x09 <= u <= 0x0d) || u == 0x20 || u == 0x85 || u == 0xa0 || u == 0x1680 || (0x2000 <= u
        <= 0x200a) || u == 0x2028 || u == 0x2029 || u == 0x202f || u == 0x205f || u == 0x3000
}

/// `s` without its leading whitespace.
pub open spec fn trim_start_spec(s: Seq<char>) -> Seq<char>
    decreases s.len(),
{
    if s.len() > 0 && is_space(s[0]) {
        trim_start_spec(s.drop_first())
    } else {
        s
    }
}

/// `s` without its trailing whitespace.
pub open spec fn trim_end_spec(s: Seq<char>) -> Seq<char>
    decreases s.len(),
{
    if s.len() > 0 && is_space(s.last()) {
        trim_end_spec(s.drop_last())
    } else {
        s
    }
}

/// `s` without its leading and trailing whitespace.
pub open spec fn trim_spec(s: Seq<char>) -> Seq<char> {
    trim_end_spec(trim_start_spec(s))
}

/// `s` with leading and trailing whitespace removed.
///
/// Calls `str::trim`, which strips Unicode `White_Space` from both ends.
#[verifier::external_body]
pub(crate) fn trim(s: &str) -> (r: String)
    ensures
        r@ == trim_spec(s@),
{
    s.trim().to_owned()
}

/// What `str::to_lowercase` gives for `s`: each character's full Unicode
/// lowercase mapping.
pub uninterp spec fn lowercase_text(s: Seq<char>) -> Seq<char>;

/// Every character of `s` is ASCII.
pub open spec fn is_ascii_text(s: Seq<char>) -> bool {
    forall|i: int| 0 <= i < s.len() ==> (#[trigger] s[i]) as int <= 127
}

/// `c` with `A`-`Z` mapped to `a`-`z`.
pub open spec fn ascii_lower(c: char) -> char {
    if 65 <= c as int <= 90 {
        (c as int + 32) as char
    } else {
        c
    }
}

/// `s` in lowercase, via `str::to_lowercase`.
///
/// The result is named `lowercase_text`; for ASCII text it is each
/// character's ASCII lowercase (the Unicode lowercase of `A`-`Z` is
/// `a`-`z`, and every other ASCII character is its own lowercase).
#[verifier::external_body]
pub(crate) fn to_lowercase(s: &str) -> (r: String)
    ensures
        r@ == lowercase_text(s@),
        is_ascii_text(s@) ==> r@ == s@.map_values(|c: char| ascii_lower(c)),
{
    s.to_lowercase()
}

/// What `{:?}` writes for the string `s`: the text in double quotes, with
/// the characters Rust's `Debug` escapes escaped.
pub uninterp spec fn quoted_text(s: Seq<char>) -> Seq<char>;

/// `s` as `{:?}` renders a string.
#[verifier::external_body]
pub(crate) fn quoted(s: &str) -> (r: String)
    ensures
        r@ == quoted_text(s@),
{
    format!("{:?}", s)
}

/// `s` without any `-`.
pub open spec fn without_hyphens_spec(s: Seq<char>) -> Seq<char> {
    s.filter(|c: char| c != '-')
}

/// `s` with every `-` removed.
pub fn without_hyphens(s: &str) -> (r: String)
    ensures
        r@ == without_hyphens_spec(s@),
{
    let n = s.unicode_len();
    let mut out = String::new();
    let mut i: usize = 0;
    while i < n
        invariant
            n == s@.len(),
            i <= n,
            out@ == s@.take(i as int).filter(|c: char| c != '-'),
        decreases n - i,
    {
        let c = s.get_char(i);
        proof {
            assert(s@.take(i as int + 1).drop_last() =~= s@.take(i as int));
            reveal(Seq::filter);
        }
        if c != '-' {
            push_char(&mut out, c);
        }
        i = i + 1;
    }
    proof {
        assert(s@.take(n as int) =~= s@);
    }
    out
}

/// `prefix` is a prefix of `s`.
pub open spec fn has_prefix(s: Seq<char>, prefix: Seq<char>) -> bool {
    prefix.len() <= s.len() && s.take(prefix.len() as int) == prefix
}

/// True if `s` begins with `prefix`.
pub fn starts_with(s: &str, prefix: &str) -> (b: bool)
    ensures
        b == has_prefix(s@, prefix@),
{
    let n = s.unicode_len();
    let m = prefix.unicode_len();
    if m > n {
        return false;
    }
    let mut i: usize = 0;
    while i < m
        invariant
            n == s@.len(),
            m == prefix@.len(),
            m <= n,
            i <= m,
            forall|j: int| 0 <= j < i ==> s@[j] == prefix@[j],
        decreases m - i,
    {
        if s.get_char(i) != prefix.get_char(i) {
            proof {
                assert(s@.take(m as int)[i as int] != prefix@[i as int]);
            }
            return false;
        }
        i = i + 1;
    }
    proof {
        assert(s@.take(m as int) =~= prefix@);
    }
    true
}

/// `s` with every leading copy of `prefix` removed.
pub open spec fn strip_prefixes_spec(s: Seq<char>, prefix: Seq<char>) -> Seq<char>
    decreases s.len(),
{
    if prefix.len() > 0 && has_prefix(s, prefix) {
        strip_prefixes_spec(s.skip(prefix.len() as int), prefix)
    } else {
        s
    }
}

/// `s` with every leading copy of `prefix` removed, as
/// `str::trim_start_matches` does; an empty `prefix` removes nothing.
pub fn strip_prefixes(s: &str, prefix: &str) -> (r: String)
    ensures
        r@ == strip_prefixes_spec(s@, prefix@),
{
    let m = prefix.unicode_len();
    let mut rest: String = s.to_owned();
    if m == 0 {
        return rest;
    }
    while starts_with(rest.as_str(), prefix)
        invariant
            m == prefix@.len(),
            m > 0,
            strip_prefixes_spec(rest@, prefix@) == strip_prefixes_spec(s@, prefix@),
        decreases rest@.len(),
    {
        let n = rest.as_str().unicode_len();
        let tail = rest.as_str().substring_char(m, n).to_owned();
        rest = tail;
    }
    rest
}

/// Lexicographic comparison of character sequences by code point: `-1`
/// if `a` sorts first, `1` if `b` does, `0` if they are equal. For Rust
/// strings this is the order `String`'s `Ord` gives, since UTF-8 preserves
/// code-point order.
pub open spec fn compare_spec(a: Seq<char>, b: Seq<char>) -> int
    decreases a.len(),
{
    if a.len() == 0 {
        if b.len() == 0 {
            0
        } else {
            -1
        }
    } else if b.len() == 0 {
        1
    } else if (a[0] as int) < (b[0] as int) {
        -1
    } else if (a[0] as int) > (b[0] as int) {
        1
    } else {
        compare_spec(a.drop_first(), b.drop_first())
    }
}

/// Swapping the arguments flips the comparison; equal-comparing sequences
/// are equal.
pub proof fn lemma_compare_flips(a: Seq<char>, b: Seq<char>)
    ensures
        compare_spec(a, b) == -compare_spec(b, a),
        compare_spec(a, b) == 0 ==> a == b,
        -1 <= compare_spec(a, b) <= 1,
    decreases a.len(),
{
    if a.len() > 0 && b.len() > 0 && (a[0] as int) == (b[0] as int) {
        lemma_compare_flips(a.drop_first(), b.drop_first());
        if compare_spec(a, b) == 0 {
            assert(a[0] == b[0]);
            assert(a =~= seq![a[0]] + a.drop_first());
            assert(b =~= seq![b[0]] + b.drop_first());
        }
    } else if a.len() > 0 && b.len() > 0 {
        assert(a[0] != b[0]);
    } else if a.len() == 0 && b.len() == 0 {
        assert(a =~= b);
    }
}

/// The comparison is transitive.
pub proof fn lemma_compare_transitive(a: Seq<char>, b: Seq<char>, c: Seq<char>)
    requires
        compare_spec(a, b) < 0,
        compare_spec(b, c) < 0,
    ensures
        compare_spec(a, c) < 0,
    decreases a.len(),
{
    if a.len() > 0 && b.len() > 0 && c.len() > 0 {
        if (a[0] as int) == (b[0] as int) && (b[0] as int) == (c[0] as int) {
            lemma_compare_transitive(a.drop_first(), b.drop_first(), c.drop_first());
        }
    }
}

/// Compare two strings lexicographically (see [`compare_spec`]).
pub fn compare(a: &str, b: &str) -> (r: i8)
    ensures
        r == compare_spec(a@, b@),
{
    let n = a.unicode_len();
    let m = b.unicode_len();
    let mut i: usize = 0;
    proof {
        assert(a@.skip(0) =~= a@);
        assert(b@.skip(0) =~= b@);
    }
    while i < n && i < m
        invariant
            n == a@.len(),
            m == b@.len(),
            i <= n,
            i <= m,
            compare_spec(a@.skip(i as int), b@.skip(i as int)) == compare_spec(a@, b@),
        decreases n - i,
    {
        let x = a.get_char(i);
        let y = b.get_char(i);
        proof {
            assert(a@.skip(i as int)[0] == x);
            assert(b@.skip(i as int)[0] == y);
            assert(a@.skip(i as int).drop_first() =~= a@.skip(i as int + 1));
            assert(b@.skip(i as int).drop_first() =~= b@.skip(i as int + 1));
        }
        if (x as u32) < (y as u32) {
            return -1;
        }
        if (x as u32) > (y as u32) {
            return 1;
        }
        i = i + 1;
    }
    proof {
        assert(a@.skip(i as int).len() == n - i);
        assert(b@.skip(i as int).len() == m - i);
    }
    if i < n {
        1
    } else if i < m {
        -1
    } else {
        0
    }
}

} // verus!
