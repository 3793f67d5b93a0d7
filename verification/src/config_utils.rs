//! Human-readable byte sizes and home-directory expansion.

use vstd::prelude::*;

use crate::errors::ConfigError;
use crate::strutil::{dec_str, digit_val, is_digit, str_chars, str_eq, u64_to_string};

verus! {

/// One kibibyte: the documented unit suffixes map to powers of 1024.
pub const KIB: u64 = 1024;

/// One mebibyte.
pub const MIB: u64 = 1024 * 1024;

/// One gibibyte.
pub const GIB: u64 = 1024 * 1024 * 1024;

/// One tebibyte.
pub const TIB: u64 = 1024 * 1024 * 1024 * 1024;

/// One pebibyte.
pub const PIB: u64 = 1024 * 1024 * 1024 * 1024 * 1024;

/// The digit characters of `s`, wherever they stand.
pub open spec fn digit_part(s: Seq<char>) -> Seq<char>
    decreases s.len(),
{
    if s.len() == 0 {
        Seq::empty()
    } else {
        digit_part(s.drop_last()) + if is_digit(s.last()) {
            seq![s.last()]
        } else {
            Seq::empty()
        }
    }
}

/// The non-digit characters of `s`, wherever they stand.
pub open spec fn unit_part(s: Seq<char>) -> Seq<char>
    decreases s.len(),
{
    if s.len() == 0 {
        Seq::empty()
    } else {
        unit_part(s.drop_last()) + if is_digit(s.last()) {
            Seq::empty()
        } else {
            seq![s.last()]
        }
    }
}

proof fn lemma_parts_push(s: Seq<char>, c: char)
    ensures
        digit_part(s.push(c)) == digit_part(s) + if is_digit(c) {
            seq![c]
        } else {
            Seq::<char>::empty()
        },
        unit_part(s.push(c)) == unit_part(s) + if is_digit(c) {
            Seq::<char>::empty()
        } else {
            seq![c]
        },
{
    assert(s.push(c).drop_last() =~= s);
    assert(s.push(c).last() == c);
}

/// The number a digit string denotes.
pub open spec fn digits_value(d: Seq<char>) -> nat
    decreases d.len(),
{
    if d.len() == 0 {
        0
    } else {
        digits_value(d.drop_last()) * 10 + digit_val(d.last())
    }
}

/// An ASCII whitespace character.
pub open spec fn is_space(c: char) -> bool {
    c == ' ' || c == '\t' || c == '\n' || c == '\r'
}

pub open spec fn strip_leading(s: Seq<char>) -> Seq<char>
    decreases s.len(),
{
    if s.len() > 0 && is_space(s[0]) {
        strip_leading(s.skip(1))
    } else {
        s
    }
}

pub open spec fn strip_trailing(s: Seq<char>) -> Seq<char>
    decreases s.len(),
{
    if s.len() > 0 && is_space(s.last()) {
        strip_trailing(s.drop_last())
    } else {
        s
    }
}

/// `s` without leading and trailing ASCII whitespace.
pub open spec fn trim_spaces(s: Seq<char>) -> Seq<char> {
    strip_trailing(strip_leading(s))
}

proof fn lemma_strip_leading(s: Seq<char>, r: int)
    requires
        0 <= r <= s.len(),
        forall|j: int| 0 <= j < r ==> is_space(s[j]),
        r < s.len() ==> !is_space(s[r]),
    ensures
        strip_leading(s) == s.skip(r),
    decreases r,
{
    if r == 0 {
        assert(s.skip(0) =~= s);
    } else {
        assert(forall|j: int| 0 <= j < r - 1 ==> is_space(#[trigger] s.skip(1)[j]));
        lemma_strip_leading(s.skip(1), r - 1);
        assert(s.skip(1).skip(r - 1) =~= s.skip(r));
    }
}

proof fn lemma_strip_trailing(s: Seq<char>, h: int)
    requires
        0 <= h <= s.len(),
        forall|j: int| h <= j < s.len() ==> is_space(s[j]),
        h > 0 ==> !is_space(s[h - 1]),
    ensures
        strip_trailing(s) == s.take(h),
    decreases s.len() - h,
{
    if h == s.len() as int {
        if s.len() > 0 && is_space(s.last()) {
            assert(forall|j: int|
                h - 1 <= j < s.drop_last().len() ==> is_space(#[trigger] s.drop_last()[j]));
            lemma_strip_trailing(s.drop_last(), h - 1);
            assert(false);
        }
        assert(s.take(h) =~= s);
    } else {
        assert(is_space(s.last()));
        assert(forall|j: int|
            h <= j < s.drop_last().len() ==> is_space(#[trigger] s.drop_last()[j]));
        lemma_strip_trailing(s.drop_last(), h);
        assert(s.drop_last().take(h) =~= s.take(h));
    }
}

/// The uppercase ASCII code of a character (others unchanged).
pub open spec fn upper_code(c: char) -> u32 {
    if 97 <= c as u32 <= 122 {
        (c as u32 - 32) as u32
    } else {
        c as u32
    }
}

/// `u`, uppercased, spells the suffix `t`.
pub open spec fn is_unit(u: Seq<char>, t: Seq<char>) -> bool {
    u.len() == t.len() && forall|i: int| 0 <= i < u.len() ==> upper_code(u[i]) == t[i] as u32
}

/// The multiplier a unit suffix denotes; an unrecognized suffix (or none)
/// treats the numeric part as raw bytes.
pub open spec fn unit_multiplier(u: Seq<char>) -> nat {
    if is_unit(u, seq!['K', 'B']) || is_unit(u, seq!['K', 'I', 'B']) {
        KIB as nat
    } else if is_unit(u, seq!['M', 'B']) || is_unit(u, seq!['M', 'I', 'B']) {
        MIB as nat
    } else if is_unit(u, seq!['G', 'B']) || is_unit(u, seq!['G', 'I', 'B']) {
        GIB as nat
    } else if is_unit(u, seq!['T', 'B']) || is_unit(u, seq!['T', 'I', 'B']) {
        TIB as nat
    } else if is_unit(u, seq!['P', 'B']) || is_unit(u, seq!['P', 'I', 'B']) {
        PIB as nat
    } else {
        1
    }
}

/// The digit characters of `s` form a number that fits the size type.
pub open spec fn byte_size_parses(s: Seq<char>) -> bool {
    digit_part(s).len() > 0 && digits_value(digit_part(s)) <= u64::MAX
}

/// The size `s` denotes: its digits times its unit's multiplier.
pub open spec fn byte_size_of(s: Seq<char>) -> nat {
    digits_value(digit_part(s)) * unit_multiplier(trim_spaces(unit_part(s)))
}

/// The rendering of a size: the value scaled down by the largest binary
/// unit that leaves it below 1024, then that unit's letter and `iB`.
pub open spec fn pow1024(e: nat) -> nat
    decreases e,
{
    if e == 0 {
        1
    } else {
        1024 * pow1024((e - 1) as nat)
    }
}

/// How many times the already once-scaled value must be divided by 1024
/// to fall below 1024.
pub open spec fn scale_exp(m: nat) -> nat
    decreases m,
{
    if m < 1024 {
        0
    } else {
        1 + scale_exp(m / 1024)
    }
}

/// The letter of the binary unit at a scale.
pub open spec fn scale_letter(e: nat) -> char {
    if e == 0 {
        'K'
    } else if e == 1 {
        'M'
    } else if e == 2 {
        'G'
    } else if e == 3 {
        'T'
    } else if e == 4 {
        'P'
    } else {
        ' '
    }
}

/// Every power of 1024 exceeds its exponent.
proof fn lemma_pow1024_gt(e: nat)
    ensures
        pow1024(e) > e,
    decreases e,
{
    if e > 0 {
        lemma_pow1024_gt((e - 1) as nat);
    }
}

/// What `to_string` yields for a size value.
pub open spec fn byte_size_render(v: nat) -> Seq<char> {
    let e = scale_exp(v / 1024);
    dec_str(v / pow1024(e + 1)) + seq![' ', scale_letter(e), 'i', 'B']
}

/// A byte count parsed from a human-readable size string.
#[derive(Debug, Clone, Copy, PartialEq, Eq, Structural)]
pub struct ByteSize(pub u64);

impl Default for ByteSize {
    fn default() -> (r: Self)
        ensures
            r.0 == 0,
    {
        ByteSize(0)
    }
}

/// Whether `c` is an ASCII whitespace character.
fn is_space_char(c: char) -> (r: bool)
    ensures
        r == is_space(c),
{
    c == ' ' || c == '\t' || c == '\n' || c == '\r'
}

/// Whether `c`, uppercased, is the ASCII character `t`.
fn upper_is(c: char, t: char) -> (r: bool)
    ensures
        r == (upper_code(c) == t as u32),
{
    let u = c as u32;
    let up = if u >= 97 && u <= 122 {
        u - 32
    } else {
        u
    };
    up == t as u32
}

/// First index of `v` from `lo` on that holds no space.
fn scan_spaces(v: &Vec<char>, lo: usize) -> (r: usize)
    requires
        lo <= v@.len(),
    ensures
        lo <= r <= v@.len(),
        forall|j: int| lo <= j < r ==> is_space(v@[j]),
        r < v@.len() ==> !is_space(v@[r as int]),
{
    let mut i = lo;
    while i < v.len()
        invariant
            lo <= i <= v@.len(),
            forall|j: int| lo <= j < i ==> is_space(v@[j]),
        decreases v@.len() - i,
    {
        if !is_space_char(v[i]) {
            return i;
        }
        i = i + 1;
    }
    i
}

/// Last bound `h <= hi0` such that `v[h - 1]` holds no space.
fn scan_spaces_back(v: &Vec<char>, lo: usize, hi0: usize) -> (r: usize)
    requires
        lo <= hi0 <= v@.len(),
    ensures
        lo <= r <= hi0,
        forall|j: int| r <= j < hi0 ==> is_space(v@[j]),
        r > lo ==> !is_space(v@[r - 1]),
{
    let mut h = hi0;
    while h > lo
        invariant
            lo <= h <= hi0 <= v@.len(),
            forall|j: int| h <= j < hi0 ==> is_space(v@[j]),
        decreases h,
    {
        if !is_space_char(v[h - 1]) {
            return h;
        }
        h = h - 1;
    }
    h
}

impl ByteSize {
    /// Parses a human-readable size and stores it.  The digits of `s`,
    /// wherever they stand, form the number; the remaining characters,
    /// trimmed and uppercased, name the unit.  A string without digits, or
    /// whose digits exceed the size type, is rejected carrying the input
    /// string; a size whose product exceeds the size type is rejected as
    /// unparseable.
    #[verifier::rlimit(50)]
    pub fn set(&mut self, s: &str) -> (r: Result<(), ConfigError>)
        ensures
            !byte_size_parses(s@) ==> (r matches Err(e) && (e matches ConfigError::Custom(m)
                && m@ == s@) && *final(self) == *old(self)),
            byte_size_parses(s@) && byte_size_of(s@) > u64::MAX ==> (r == Err::<(), ConfigError>(
                ConfigError::UnableToParseByteSize,
            ) && *final(self) == *old(self)),
            byte_size_parses(s@) && byte_size_of(s@) <= u64::MAX ==> (r == Ok::<(), ConfigError>(
                (),
            ) && final(self).0 == byte_size_of(s@)),
    {
        let cs = str_chars(s);
        let mut acc: u64 = 0;
        let mut saw_digit = false;
        let mut too_big = false;
        let mut unit: Vec<char> = Vec::new();
        let mut i: usize = 0;
        while i < cs.len()
            invariant
                0 <= i <= cs@.len(),
                cs@ == s@,
                unit@ == unit_part(s@.take(i as int)),
                saw_digit == (digit_part(s@.take(i as int)).len() > 0),
                !too_big ==> acc == digits_value(digit_part(s@.take(i as int))),
                too_big ==> digits_value(digit_part(s@.take(i as int))) > u64::MAX,
            decreases cs@.len() - i,
        {
            let ghost pre = s@.take(i as int);
            let c = cs[i];
            proof {
                assert(s@.take(i as int + 1) =~= pre.push(c));
                lemma_parts_push(pre, c);
            }
            let u = c as u32;
            if u >= 48 && u <= 57 {
                saw_digit = true;
                let d = (u - 48) as u64;
                proof {
                    assert(digit_part(pre.push(c)) == digit_part(pre).push(c)) by {
                        assert(digit_part(pre) + seq![c] =~= digit_part(pre).push(c));
                    }
                    assert(digit_part(pre.push(c)).drop_last() =~= digit_part(pre));
                    assert(digits_value(digit_part(pre.push(c))) == digits_value(digit_part(pre))
                        * 10 + digit_val(c));
                }
                if too_big {
                    proof {
                        let v0 = digits_value(digit_part(pre));
                        assert(v0 * 10 == v0 * 9 + v0);
                        assert(v0 * 9 >= 0);
                    }
                } else {
                    let next = match acc.checked_mul(10) {
                        Some(x) => x.checked_add(d),
                        None => None,
                    };
                    match next {
                        Some(x) => {
                            acc = x;
                        },
                        None => {
                            too_big = true;
                        },
                    }
                }
            } else {
                unit.push(c);
                proof {
                    assert(unit@ =~= unit_part(pre) + seq![c]);
                }
            }
            i = i + 1;
        }
        proof {
            assert(s@.take(s@.len() as int) =~= s@);
        }
        if !saw_digit || too_big {
            return Err(ConfigError::Custom(s.to_owned()));
        }
        let lo = scan_spaces(&unit, 0);
        let hi = scan_spaces_back(&unit, lo, unit.len());
        proof {
            lemma_strip_leading(unit@, lo as int);
            lemma_strip_trailing(unit@.skip(lo as int), hi - lo);
            assert(unit@.skip(lo as int).take(hi - lo) =~= unit@.subrange(
                lo as int,
                hi as int,
            ));
            assert(trim_spaces(unit_part(s@)) == unit@.subrange(lo as int, hi as int));
        }
        let ghost tu = unit@.subrange(lo as int, hi as int);
        let ulen = hi - lo;
        let mult: u64 = if ulen == 2 && upper_is(unit[lo], 'K') && upper_is(unit[lo + 1], 'B') {
            KIB
        } else if ulen == 3 && upper_is(unit[lo], 'K') && upper_is(unit[lo + 1], 'I') && upper_is(
            unit[lo + 2],
            'B',
        ) {
            KIB
        } else if ulen == 2 && upper_is(unit[lo], 'M') && upper_is(unit[lo + 1], 'B') {
            MIB
        } else if ulen == 3 && upper_is(unit[lo], 'M') && upper_is(unit[lo + 1], 'I') && upper_is(
            unit[lo + 2],
            'B',
        ) {
            MIB
        } else if ulen == 2 && upper_is(unit[lo], 'G') && upper_is(unit[lo + 1], 'B') {
            GIB
        } else if ulen == 3 && upper_is(unit[lo], 'G') && upper_is(unit[lo + 1], 'I') && upper_is(
            unit[lo + 2],
            'B',
        ) {
            GIB
        } else if ulen == 2 && upper_is(unit[lo], 'T') && upper_is(unit[lo + 1], 'B') {
            TIB
        } else if ulen == 3 && upper_is(unit[lo], 'T') && upper_is(unit[lo + 1], 'I') && upper_is(
            unit[lo + 2],
            'B',
        ) {
            TIB
        } else if ulen == 2 && upper_is(unit[lo], 'P') && upper_is(unit[lo + 1], 'B') {
            PIB
        } else if ulen == 3 && upper_is(unit[lo], 'P') && upper_is(unit[lo + 1], 'I') && upper_is(
            unit[lo + 2],
            'B',
        ) {
            PIB
        } else {
            1
        };
        proof {
            assert(forall|t: int| 0 <= t < tu.len() ==> tu[t] == unit@[lo + t]);
            assert(mult as nat == unit_multiplier(tu));
        }
        match acc.checked_mul(mult) {
            Some(v) => {
                self.0 = v;
                Ok(())
            },
            None => Err(ConfigError::UnableToParseByteSize),
        }
    }

    /// Renders the size scaled to the largest binary unit that leaves the
    /// shown value below 1024.
    pub fn to_string(&self) -> (r: String)
        ensures
            r@ == byte_size_render(self.0 as nat),
    {
        let v = self.0;
        let mut div: u64 = 1024;
        let mut exp: u64 = 0;
        let mut n: u64 = v / 1024;
        proof {
            assert(pow1024(0) == 1);
            assert(pow1024(1) == 1024);
        }
        while n >= 1024
            invariant
                1024 <= div,
                div as nat == pow1024(exp as nat + 1),
                n as nat == v as nat / div as nat,
                scale_exp((v / 1024) as nat) == exp as nat + scale_exp(n as nat),
            decreases n,
        {
            proof {
                lemma_pow1024_gt(exp as nat + 1);
                vstd::arithmetic::div_mod::lemma_fundamental_div_mod(v as int, div as int);
                assert((div as int) * 1024 <= v as int) by (nonlinear_arith)
                    requires
                        (v as int) == (div as int) * ((v as int) / (div as int)) + (v as int) % (
                        div as int),
                        (v as int) % (div as int) >= 0,
                        (v as int) / (div as int) >= 1024,
                        (div as int) >= 1,
                ;
                vstd::arithmetic::div_mod::lemma_div_denominator(v as int, div as int, 1024);
            }
            div = div * 1024;
            exp = exp + 1;
            n = n / 1024;
        }
        let shown = v / div;
        let ghost e = scale_exp((v / 1024) as nat);
        proof {
            assert(scale_exp(n as nat) == 0);
            assert(exp as nat == e);
        }
        let letter: &'static str = if exp == 0 {
            "K"
        } else if exp == 1 {
            "M"
        } else if exp == 2 {
            "G"
        } else if exp == 3 {
            "T"
        } else if exp == 4 {
            "P"
        } else {
            " "
        };
        proof {
            reveal_strlit("K");
            reveal_strlit("M");
            reveal_strlit("G");
            reveal_strlit("T");
            reveal_strlit("P");
            reveal_strlit(" ");
            assert(letter@ =~= seq![scale_letter(e)]);
        }
        let mut out = u64_to_string(shown);
        out.append(" ");
        out.append(letter);
        out.append("iB");
        proof {
            reveal_strlit("iB");
            assert(out@ =~= byte_size_render(v as nat));
        }
        out
    }

    /// Parses a human-readable size, as `set` does.
    pub fn from_str(s: &str) -> (r: Result<ByteSize, ConfigError>)
        ensures
            !byte_size_parses(s@) ==> (r matches Err(e) && (e matches ConfigError::Custom(m)
                && m@ == s@)),
            byte_size_parses(s@) && byte_size_of(s@) > u64::MAX ==> r == Err::<
                ByteSize,
                ConfigError,
            >(ConfigError::UnableToParseByteSize),
            byte_size_parses(s@) && byte_size_of(s@) <= u64::MAX ==> (r matches Ok(b) && b.0
                == byte_size_of(s@)),
    {
        let mut b = ByteSize(0);
        match b.set(s) {
            Ok(()) => Ok(b),
            Err(e) => Err(e),
        }
    }
}

/// Relies on dirs::home_dir: the user's home directory, if the platform
/// reports one.  The result depends on the environment, so nothing is
/// promised of it.
#[verifier::external_body]
fn home_dir_string() -> Option<String> {
    dirs::home_dir().and_then(|p| p.to_str().map(|s| s.to_string()))
}

/// Expands a leading `~/` against the given home directory: a bare `~` is
/// rejected, `~/rest` becomes `home/rest`, anything else passes through.
pub fn expand_home_dir_with(home: Option<&str>, path: &str) -> (r: Result<String, String>)
    ensures
        path@ == "~"@ ==> (r matches Err(m) && m@ == "Path cannot be home directory."@),
        path@ != "~"@ && path@.len() >= 2 && path@.subrange(0, 2) == "~/"@ ==> (match home {
            Some(h) => r matches Ok(p) && p@ == h@ + "/"@ + path@.skip(2),
            None => r matches Err(m) && m@ == "Unable to get home directory."@,
        }),
        path@ != "~"@ && !(path@.len() >= 2 && path@.subrange(0, 2) == "~/"@) ==> (r matches Ok(p)
            && p@ == path@),
{
    if str_eq(path, "~") {
        return Err("Path cannot be home directory.".to_owned());
    }
    let n = path.unicode_len();
    let tilde_slash = n >= 2 && path.get_char(0) == '~' && path.get_char(1) == '/';
    proof {
        reveal_strlit("~/");
        assert("~/"@.len() == 2);
        assert("~/"@[0] == '~');
        assert("~/"@[1] == '/');
        if n >= 2 {
            if path@[0] == '~' && path@[1] == '/' {
                assert(path@.subrange(0, 2) =~= "~/"@);
            }
            if path@.subrange(0, 2) == "~/"@ {
                assert(path@.subrange(0, 2)[0] == path@[0]);
                assert(path@.subrange(0, 2)[1] == path@[1]);
            }
            assert((path@.subrange(0, 2) == "~/"@) == (path@[0] == '~' && path@[1] == '/'));
        }
    }
    if tilde_slash {
        match home {
            Some(h) => {
                let rest = path.substring_char(2, n);
                let mut out = h.to_owned();
                let ghost h0 = out@;
                out.append("/");
                out.append(rest);
                proof {
                    assert(path@.subrange(2, path@.len() as int) =~= path@.skip(2));
                    assert(out@ =~= h0 + "/"@ + path@.skip(2));
                }
                Ok(out)
            },
            None => Err("Unable to get home directory.".to_owned()),
        }
    } else {
        Ok(path.to_owned())
    }
}

/// Expands a leading `~/` in `path` against the process's home directory.
/// A bare `~` is rejected; a path without a leading `~/` passes through
/// unchanged; what the home directory is depends on the environment.
pub fn expand_home_dir(path: &str) -> (r: Result<String, String>)
    ensures
        path@ == "~"@ ==> (r matches Err(m) && m@ == "Path cannot be home directory."@),
        path@ != "~"@ && !(path@.len() >= 2 && path@.subrange(0, 2) == "~/"@) ==> (r matches Ok(p)
            && p@ == path@),
        path@ != "~"@ && path@.len() >= 2 && path@.subrange(0, 2) == "~/"@ ==> ({
            &&& (r matches Err(m) ==> m@ == "Unable to get home directory."@)
            &&& (r matches Ok(p) ==> exists|h: Seq<char>| p@ == h + "/"@ + path@.skip(2))
        }),
{
    match home_dir_string() {
        Some(h) => expand_home_dir_with(Some(h.as_str()), path),
        None => expand_home_dir_with(None, path),
    }
}

/// Equal up to ASCII case.
pub open spec fn ci_eq(a: Seq<char>, b: Seq<char>) -> bool {
    a.len() == b.len() && forall|i: int| 0 <= i < a.len() ==> upper_code(a[i]) == upper_code(b[i])
}

/// Compares two string slices up to ASCII case.
pub fn str_eq_ci(a: &str, b: &str) -> (r: bool)
    ensures
        r == ci_eq(a@, b@),
{
    let na = a.unicode_len();
    let nb = b.unicode_len();
    if na != nb {
        return false;
    }
    let mut i: usize = 0;
    while i < na
        invariant
            0 <= i <= na,
            na == a@.len(),
            na == b@.len(),
            forall|j: int| 0 <= j < i ==> upper_code(a@[j]) == upper_code(b@[j]),
        decreases na - i,
    {
        let ca = a.get_char(i);
        let cb = b.get_char(i);
        let ua = ca as u32;
        let ub = cb as u32;
        let ua2 = if ua >= 97 && ua <= 122 {
            ua - 32
        } else {
            ua
        };
        let ub2 = if ub >= 97 && ub <= 122 {
            ub - 32
        } else {
            ub
        };
        if ua2 != ub2 {
            return false;
        }
        i = i + 1;
    }
    true
}

/// Every character is an ASCII lowercase letter.
pub open spec fn all_lowercase_alpha(s: Seq<char>) -> bool {
    forall|i: int| 0 <= i < s.len() ==> 97 <= (#[trigger] s[i]) as u32 <= 122
}

/// Whether the string is all ASCII lowercase letters.
pub fn is_lowercase_alpha(s: &str) -> (r: bool)
    ensures
        r == all_lowercase_alpha(s@),
{
    let n = s.unicode_len();
    let mut i: usize = 0;
    while i < n
        invariant
            0 <= i <= n,
            n == s@.len(),
            forall|j: int| 0 <= j < i ==> 97 <= (#[trigger] s@[j]) as u32 <= 122,
        decreases n - i,
    {
        let c = s.get_char(i) as u32;
        if !(c >= 97 && c <= 122) {
            return false;
        }
        i = i + 1;
    }
    true
}

/// Splits `key=value` at the first `=`: both sides must be nonempty, and
/// the value keeps any further `=` characters.
pub fn parse_kv(kv: &str) -> (r: Result<(String, String), String>)
    ensures
        (forall|j: int| 0 <= j < kv@.len() ==> (#[trigger] kv@[j]) != '=') ==> (r matches Err(m)
            && m@ == "Invalid key-value pair: "@ + kv@),
        forall|i: int|
            (0 <= i < kv@.len() && (#[trigger] kv@[i]) == '=' && (forall|j: int|
                0 <= j < i ==> kv@[j] != '=')) ==> if 0 < i && i + 1 < kv@.len() {
                r matches Ok(p) && p.0@ == kv@.take(i) && p.1@ == kv@.skip(i + 1)
            } else {
                r matches Err(m) && m@ == "Invalid key-value pair: "@ + kv@
            },
{
    let n = kv.unicode_len();
    let mut i: usize = 0;
    while i < n
        invariant
            0 <= i <= n,
            n == kv@.len(),
            forall|j: int| 0 <= j < i ==> (#[trigger] kv@[j]) != '=',
        decreases n - i,
    {
        if kv.get_char(i) == '=' {
            if i == 0 || i + 1 >= n {
                let mut m = "Invalid key-value pair: ".to_owned();
                m.append(kv);
                return Err(m);
            }
            let key = kv.substring_char(0, i).to_owned();
            let value = kv.substring_char(i + 1, n).to_owned();
            proof {
                assert(kv@.subrange(0, i as int) =~= kv@.take(i as int));
                assert(kv@.subrange(i + 1, kv@.len() as int) =~= kv@.skip(i + 1));
            }
            return Ok((key, value));
        }
        i = i + 1;
    }
    let mut m = "Invalid key-value pair: ".to_owned();
    m.append(kv);
    Err(m)
}

} // verus!
