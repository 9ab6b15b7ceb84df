//! The hot-reload files next to `index.html`: the style sheet the hook pulls,
//! and the version file it polls, `{"v":N,"video":...}`. Each write carries a
//! version greater than the one before (or the current time in milliseconds,
//! whichever is larger), so the running app notices the change.
use vstd::prelude::*;
use crate::paths::{is_joined, path_join, plain_name, verbatim};
use crate::pattern::{compile, regex_accepts, regex_captures_group1, regex_group1, PatternError};

verus! {

/// File name of the hot style sheet.
pub const HOT_CSS_NAME: &'static str = "kimi-wallpaper-hot.css";

/// File name of the version file.
pub const HOT_JSON_NAME: &'static str = "kimi-wallpaper-hot.json";

/// Finds the version number in a version file.
pub const VERSION_PATTERN: &'static str = r#""v"\s*:\s*(\d+)"#;

/// The hot style sheet's path in the app's `desktop-dist` directory.
pub fn hot_css_path(dist_root: &str) -> (r: String)
    ensures
        !verbatim(dist_root@) ==> is_joined(dist_root@, HOT_CSS_NAME@, r@),
{
    proof {
        reveal_strlit("kimi-wallpaper-hot.css");
    }
    path_join(dist_root, HOT_CSS_NAME)
}

/// The version file's path in the app's `desktop-dist` directory.
pub fn hot_json_path(dist_root: &str) -> (r: String)
    ensures
        !verbatim(dist_root@) ==> is_joined(dist_root@, HOT_JSON_NAME@, r@),
{
    proof {
        reveal_strlit("kimi-wallpaper-hot.json");
    }
    path_join(dist_root, HOT_JSON_NAME)
}

/// An ASCII decimal digit.
pub open spec fn is_digit(c: char) -> bool {
    '0' <= c <= '9'
}

/// The value of a string of decimal digits.
pub open spec fn digits_value(s: Seq<char>) -> int
    decreases s.len(),
{
    if s.len() == 0 {
        0
    } else {
        digits_value(s.drop_last()) * 10 + (s.last() as int - '0' as int)
    }
}

/// The text after an optional leading `+`.
pub open spec fn unsigned_part(s: Seq<char>) -> Seq<char> {
    if s.len() > 0 && s[0] == '+' {
        s.drop_first()
    } else {
        s
    }
}

/// Every character is an ASCII digit.
pub open spec fn all_digits(d: Seq<char>) -> bool {
    forall|i: int| 0 <= i < d.len() ==> is_digit(#[trigger] d[i])
}

/// `str::parse::<u64>`: an optional `+`, then one or more ASCII digits whose
/// value fits in 64 bits.
pub open spec fn parse_u64_spec(s: Seq<char>) -> Option<int> {
    let d = unsigned_part(s);
    if d.len() == 0 || !all_digits(d) {
        None
    } else if digits_value(d) > u64::MAX {
        None
    } else {
        Some(digits_value(d))
    }
}

/// A longer run of digits is worth at least as much as its prefix.
proof fn lemma_digits_value_grows(s: Seq<char>, n: int)
    requires
        0 <= n <= s.len(),
        forall|i: int| 0 <= i < s.len() ==> is_digit(#[trigger] s[i]),
    ensures
        digits_value(s) >= digits_value(s.subrange(0, n)),
        digits_value(s) >= 0,
    decreases s.len(),
{
    if s.len() > 0 {
        if n < s.len() {
            assert(s.drop_last().subrange(0, n) =~= s.subrange(0, n));
            lemma_digits_value_grows(s.drop_last(), n);
        } else {
            assert(s.subrange(0, n) =~= s);
            lemma_digits_value_grows(s.drop_last(), 0);
        }
    } else {
        assert(s.subrange(0, n) =~= s);
    }
}

/// `str::parse::<u64>`.
pub fn parse_u64(s: &str) -> (r: Option<u64>)
    ensures
        match r {
            Some(v) => parse_u64_spec(s@) == Some(v as int),
            None => parse_u64_spec(s@) is None,
        },
{
    let cs = crate::text::chars_of(s);
    let start: usize = if cs.len() > 0 && cs[0] == '+' {
        1
    } else {
        0
    };
    let ghost d = unsigned_part(s@);
    assert(d =~= cs@.subrange(start as int, cs@.len() as int));
    if start == cs.len() {
        return None;
    }
    let mut acc: u64 = 0;
    let mut i: usize = start;
    while i < cs.len()
        invariant
            start <= i <= cs@.len(),
            cs@ == s@,
            d == unsigned_part(s@),
            d == cs@.subrange(start as int, cs@.len() as int),
            forall|k: int| start <= k < i ==> is_digit(#[trigger] cs@[k]),
            acc == digits_value(cs@.subrange(start as int, i as int)),
        decreases cs@.len() - i,
    {
        let c = cs[i];
        if !('0' <= c && c <= '9') {
            assert(!is_digit(d[i - start]));
            assert(!all_digits(d));
            return None;
        }
        let dig = (c as u32 - '0' as u32) as u64;
        let ghost pre = cs@.subrange(start as int, i + 1);
        assert(pre.drop_last() =~= cs@.subrange(start as int, i as int));
        assert(pre.last() == c);
        assert(digits_value(pre) == acc * 10 + dig);
        if acc > (u64::MAX - dig) / 10 {
            proof {
                assert(digits_value(pre) > u64::MAX) by (nonlinear_arith)
                    requires
                        acc > (u64::MAX - dig) / 10,
                        digits_value(pre) == acc * 10 + dig,
                        0 <= dig <= 9,
                ;
                if all_digits(d) {
                    lemma_digits_value_grows(d, i + 1 - start);
                    assert(d.subrange(0, i + 1 - start) =~= pre);
                }
            }
            return None;
        }
        proof {
            assert(acc * 10 + dig <= u64::MAX) by (nonlinear_arith)
                requires
                    acc <= (u64::MAX - dig) / 10,
                    0 <= dig <= 9,
            ;
        }
        acc = acc * 10 + dig;
        i = i + 1;
    }
    assert(d =~= cs@.subrange(start as int, i as int));
    Some(acc)
}

/// The version to write next: one more than the old version (saturating, and
/// 0 when none could be read), or the current time in milliseconds if larger.
pub open spec fn next_version_spec(old_capture: Option<Seq<char>>, now_ms: u64) -> int {
    let old = match old_capture {
        Some(c) => match parse_u64_spec(c) {
            Some(v) => v,
            None => 0,
        },
        None => 0,
    };
    let bumped = if old + 1 > u64::MAX {
        u64::MAX as int
    } else {
        old + 1
    };
    if bumped >= now_ms {
        bumped
    } else {
        now_ms as int
    }
}

/// The next version, given the digits captured from the old version file (if
/// any).
pub fn version_after(old_capture: Option<&str>, now_ms: u64) -> (v: u64)
    ensures
        v == next_version_spec(
            match old_capture {
                Some(c) => Some(c@),
                None => None,
            },
            now_ms,
        ),
{
    let old = match old_capture {
        Some(c) => match parse_u64(c) {
            Some(v) => v,
            None => 0,
        },
        None => 0,
    };
    let bumped = old.saturating_add(1);
    if bumped >= now_ms {
        bumped
    } else {
        now_ms
    }
}

/// The next version, read from the old version file's content (`None` when
/// there is no file): the digits after `"v":` are taken with the regular
/// expression `"v"\s*:\s*(\d+)`. An error exactly when the `regex` crate
/// refuses that expression.
pub fn next_hot_version(old_json: Option<&str>, now_ms: u64) -> (r: Result<u64, PatternError>)
    ensures
        r is Ok <==> regex_accepts(VERSION_PATTERN@),
        r matches Ok(v) ==> v == next_version_spec(
            match old_json {
                Some(j) => regex_group1(VERSION_PATTERN@, j@),
                None => None,
            },
            now_ms,
        ),
        r matches Err(e) ==> e == PatternError::Invalid,
{
    let p = compile(VERSION_PATTERN)?;
    let capture = match old_json {
        Some(j) => regex_captures_group1(&p, j),
        None => None,
    };
    match capture {
        Some(c) => Ok(version_after(Some(c.as_str()), now_ms)),
        None => Ok(version_after(None, now_ms)),
    }
}

/// The decimal digits of `n`.
pub open spec fn decimal(n: nat) -> Seq<char>
    decreases n,
{
    if n < 10 {
        seq![('0' as int + n) as char]
    } else {
        decimal(n / 10).push(('0' as int + n % 10) as char)
    }
}

/// `n` in decimal, as `format!("{}", n)` writes it.
pub fn u64_to_decimal(n: u64) -> (r: Vec<char>)
    ensures
        r@ == decimal(n as nat),
    decreases n,
{
    let d = (n % 10) as u32;
    let c = char_from_digit(d);
    if n < 10 {
        let mut v: Vec<char> = Vec::new();
        v.push(c);
        v
    } else {
        let mut v = u64_to_decimal(n / 10);
        v.push(c);
        v
    }
}

/// The ASCII digit for `d`.
fn char_from_digit(d: u32) -> (c: char)
    requires
        d < 10,
    ensures
        c == ('0' as int + d) as char,
{
    if d == 0 {
        '0'
    } else if d == 1 {
        '1'
    } else if d == 2 {
        '2'
    } else if d == 3 {
        '3'
    } else if d == 4 {
        '4'
    } else if d == 5 {
        '5'
    } else if d == 6 {
        '6'
    } else if d == 7 {
        '7'
    } else if d == 8 {
        '8'
    } else {
        '9'
    }
}

/// The version file's content: `{"v":N,"video":"NAME"}`, or `"video":null`
/// without a video. The name is written as it is.
pub open spec fn hot_json_spec(version: u64, video: Option<Seq<char>>) -> Seq<char> {
    let head = seq!['{', '"', 'v', '"', ':'] + decimal(version as nat);
    match video {
        Some(name) => head + seq![',', '"', 'v', 'i', 'd', 'e', 'o', '"', ':', '"'] + name + seq![
            '"',
            '}',
        ],
        None => head + seq![',', '"', 'v', 'i', 'd', 'e', 'o', '"', ':', 'n', 'u', 'l', 'l', '}'],
    }
}

/// Builds the version file's content.
pub fn hot_json(version: u64, video: Option<&str>) -> (r: String)
    ensures
        r@ == hot_json_spec(
            version,
            match video {
                Some(v) => Some(v@),
                None => None,
            },
        ),
{
    let mut out: Vec<char> = Vec::new();
    out.push('{');
    out.push('"');
    out.push('v');
    out.push('"');
    out.push(':');
    let digits = u64_to_decimal(version);
    crate::text::push_all(&mut out, &digits);
    out.push(',');
    out.push('"');
    out.push('v');
    out.push('i');
    out.push('d');
    out.push('e');
    out.push('o');
    out.push('"');
    out.push(':');
    match video {
        Some(name) => {
            out.push('"');
            let n = crate::text::chars_of(name);
            crate::text::push_all(&mut out, &n);
            out.push('"');
            out.push('}');
        },
        None => {
            out.push('n');
            out.push('u');
            out.push('l');
            out.push('l');
            out.push('}');
        },
    }
    proof {
        let head = seq!['{', '"', 'v', '"', ':'] + decimal(version as nat);
        match video {
            Some(name) => {
                assert(out@ =~= head + seq![',', '"', 'v', 'i', 'd', 'e', 'o', '"', ':', '"'] + name@
                    + seq!['"', '}']);
            },
            None => {
                assert(out@ =~= head + seq![',', '"', 'v', 'i', 'd', 'e', 'o', '"', ':', 'n', 'u', 'l', 'l', '}']);
            },
        }
    }
    crate::text::string_of(&out)
}

/// A version written after another is larger than it, unless the old one was
/// already the largest 64-bit number, and never earlier than the current time.
pub proof fn law_version_increases(old: u64, now_ms: u64)
    ensures
        next_version_spec(Some(decimal(old as nat)), now_ms) >= now_ms,
        old < u64::MAX ==> next_version_spec(Some(decimal(old as nat)), now_ms) > old,
{
    lemma_decimal_parses(old as nat);
}

/// Decimal digits of a 64-bit number parse back to it.
pub proof fn lemma_decimal_parses(n: nat)
    requires
        n <= u64::MAX,
    ensures
        parse_u64_spec(decimal(n)) == Some(n as int),
{
    lemma_decimal_digits(n);
    assert(decimal(n)[0] != '+');
}

/// `decimal` writes digits whose value is the number.
proof fn lemma_decimal_digits(n: nat)
    ensures
        decimal(n).len() > 0,
        forall|i: int| 0 <= i < decimal(n).len() ==> is_digit(#[trigger] decimal(n)[i]),
        digits_value(decimal(n)) == n,
    decreases n,
{
    let d = decimal(n);
    if n >= 10 {
        lemma_decimal_digits(n / 10);
        assert(d.drop_last() =~= decimal(n / 10));
        assert(n == (n / 10) * 10 + n % 10) by (nonlinear_arith);
        assert(d.last() == ('0' as int + n % 10) as char);
        assert(d.last() as int - '0' as int == n % 10);
        assert(digits_value(d) == digits_value(d.drop_last()) * 10 + (d.last() as int - '0' as int));
        assert forall|i: int| 0 <= i < d.len() implies is_digit(#[trigger] d[i]) by {
            if i < d.len() - 1 {
                assert(d[i] == decimal(n / 10)[i]);
            }
        }
    } else {
        assert(d.drop_last() =~= Seq::<char>::empty());
        assert(d.last() == ('0' as int + n) as char);
        assert(d.last() as int - '0' as int == n);
        assert(digits_value(d) == digits_value(d.drop_last()) * 10 + (d.last() as int - '0' as int));
    }
}

} // verus!
