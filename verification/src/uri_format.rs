//! URI template formatting: placeholders of the form `{key:width}` are
//! replaced by the key's integer value, zero-padded to the decimal field
//! width.

use vstd::prelude::*;
use vstd::string::*;

verus! {

/// The decimal digit character for a value in `0 .. 10`.
pub open spec fn digit_char(d: int) -> char {
    if d == 0 {
        '0'
    } else if d == 1 {
        '1'
    } else if d == 2 {
        '2'
    } else if d == 3 {
        '3'
    } else if d == 4 {
        '4'
    } else if d == 5 {
        '5'
    } else if d == 6 {
        '6'
    } else if d == 7 {
        '7'
    } else if d == 8 {
        '8'
    } else {
        '9'
    }
}

/// The decimal digits of `n`, most significant first.
pub open spec fn dec_digits(n: nat) -> Seq<char>
    decreases n,
{
    if n < 10 {
        seq![digit_char(n as int)]
    } else {
        dec_digits(n / 10) + seq![digit_char((n % 10) as int)]
    }
}

/// The decimal form of `v`, with a leading minus sign when negative.
pub open spec fn dec_int(v: int) -> Seq<char> {
    if v < 0 {
        seq!['-'] + dec_digits((-v) as nat)
    } else {
        dec_digits(v as nat)
    }
}

/// `s` left-padded with `'0'` up to width `w`.
pub open spec fn spec_zero_pad(s: Seq<char>, w: int) -> Seq<char> {
    if s.len() >= w {
        s
    } else {
        Seq::new((w - s.len()) as nat, |i: int| '0') + s
    }
}

/// The decimal form of `v`, zero-padded to field width `w`.
pub open spec fn spec_padded_dec(v: int, w: int) -> Seq<char> {
    spec_zero_pad(dec_int(v), w)
}

/// Every character of `s` is a decimal digit.
pub open spec fn is_digits(s: Seq<char>) -> bool {
    forall|j: int| 0 <= j < s.len() ==> '0' <= #[trigger] s[j] <= '9'
}

/// The value of a sequence of decimal digits, most significant first.
pub open spec fn digits_val(s: Seq<char>) -> int
    decreases s.len(),
{
    if s.len() == 0 {
        0
    } else {
        digits_val(s.drop_last()) * 10 + (s.last() as int - '0' as int)
    }
}

/// A well-formed decimal field width: nonempty, all digits, value
/// representable in a `usize`.
pub open spec fn spec_width_ok(s: Seq<char>) -> bool {
    s.len() >= 1 && is_digits(s) && digits_val(s) <= usize::MAX
}

/// Digit-sequence values are nonnegative and grow with every appended digit.
pub proof fn lemma_digits_val_mono(s: Seq<char>, k: int)
    requires
        is_digits(s),
        0 <= k <= s.len(),
    ensures
        0 <= digits_val(s.subrange(0, k)) <= digits_val(s),
    decreases s.len() - k,
{
    if k == s.len() {
        assert(s.subrange(0, k) =~= s);
        lemma_digits_val_nonneg(s);
    } else {
        lemma_digits_val_mono(s, k + 1);
        let p = s.subrange(0, k + 1);
        assert(p.drop_last() =~= s.subrange(0, k));
        lemma_digits_val_nonneg(s.subrange(0, k));
        assert('0' <= s[k] <= '9');
        assert(p.last() == s[k]);
    }
}

/// The value of a digit sequence is nonnegative.
pub proof fn lemma_digits_val_nonneg(s: Seq<char>)
    requires
        is_digits(s),
    ensures
        digits_val(s) >= 0,
    decreases s.len(),
{
    if s.len() > 0 {
        assert(is_digits(s.drop_last())) by {
            assert(forall|j: int|
                0 <= j < s.len() - 1 ==> s.drop_last()[j] == #[trigger] s[j]);
        }
        lemma_digits_val_nonneg(s.drop_last());
        assert('0' <= s[s.len() - 1] <= '9');
    }
}

/// The decimal digits of `n` are digits and read back as `n`.
pub proof fn lemma_dec_digits_roundtrip(n: nat)
    ensures
        is_digits(dec_digits(n)),
        digits_val(dec_digits(n)) == n,
        dec_digits(n).len() >= 1,
    decreases n,
{
    if n < 10 {
        let s = dec_digits(n);
        assert(s == seq![digit_char(n as int)]);
        assert(s.drop_last() =~= Seq::<char>::empty());
        assert(digits_val(s.drop_last()) == 0);
        assert(s.last() == digit_char(n as int));
        assert(digit_char(n as int) as int - '0' as int == n);
    } else {
        lemma_dec_digits_roundtrip(n / 10);
        let d = dec_digits(n / 10);
        let full = dec_digits(n);
        assert(full == d + seq![digit_char((n % 10) as int)]);
        assert(full.drop_last() =~= d);
        assert(full.last() == digit_char((n % 10) as int));
        assert(full.last() as int - '0' as int == n % 10);
        assert(digits_val(full) == digits_val(d) * 10 + n % 10);
        assert(n == (n / 10) * 10 + n % 10) by (nonlinear_arith);
        assert(forall|j: int| 0 <= j < full.len() ==> '0' <= #[trigger] full[j] <= '9') by {
            assert(forall|j: int| 0 <= j < d.len() ==> full[j] == #[trigger] d[j]);
        }
    }
}

/// One decimal digit as a string slice.
fn digit_str(d: u64) -> (r: &'static str)
    requires
        d < 10,
    ensures
        r@ == seq![digit_char(d as int)],
{
    if d == 0 {
        proof {
            reveal_strlit("0");
            assert("0"@ =~= seq![digit_char(0)]);
        }
        "0"
    } else if d == 1 {
        proof {
            reveal_strlit("1");
            assert("1"@ =~= seq![digit_char(1)]);
        }
        "1"
    } else if d == 2 {
        proof {
            reveal_strlit("2");
            assert("2"@ =~= seq![digit_char(2)]);
        }
        "2"
    } else if d == 3 {
        proof {
            reveal_strlit("3");
            assert("3"@ =~= seq![digit_char(3)]);
        }
        "3"
    } else if d == 4 {
        proof {
            reveal_strlit("4");
            assert("4"@ =~= seq![digit_char(4)]);
        }
        "4"
    } else if d == 5 {
        proof {
            reveal_strlit("5");
            assert("5"@ =~= seq![digit_char(5)]);
        }
        "5"
    } else if d == 6 {
        proof {
            reveal_strlit("6");
            assert("6"@ =~= seq![digit_char(6)]);
        }
        "6"
    } else if d == 7 {
        proof {
            reveal_strlit("7");
            assert("7"@ =~= seq![digit_char(7)]);
        }
        "7"
    } else if d == 8 {
        proof {
            reveal_strlit("8");
            assert("8"@ =~= seq![digit_char(8)]);
        }
        "8"
    } else {
        proof {
            reveal_strlit("9");
            assert("9"@ =~= seq![digit_char(9)]);
        }
        "9"
    }
}

/// Append the decimal digits of `n` to `out`.
pub fn append_dec_u64(n: u64, out: &mut String)
    ensures
        final(out)@ == old(out)@ + dec_digits(n as nat),
    decreases n,
{
    if n < 10 {
        out.append(digit_str(n));
    } else {
        append_dec_u64(n / 10, out);
        let ghost mid = out@;
        out.append(digit_str(n % 10));
        proof {
            assert(final(out)@ =~= old(out)@ + dec_digits(n as nat));
        }
    }
}

/// The decimal form of `v`, zero-padded to field width `width`; negative
/// values keep their sign and are padded in front of it.
pub fn format_padded_i32(v: i32, width: usize) -> (r: String)
    ensures
        r@ == spec_padded_dec(v as int, width as int),
{
    let mut digits = String::new();
    if v < 0 {
        proof {
            reveal_strlit("-");
            assert("-"@ =~= seq!['-']);
        }
        digits.append("-");
    }
    let m: u64 = if v < 0 {
        (-(v as i64)) as u64
    } else {
        v as u64
    };
    append_dec_u64(m, &mut digits);
    proof {
        if v < 0 {
            assert(digits@ =~= dec_int(v as int));
        } else {
            assert(digits@ =~= dec_int(v as int));
        }
    }
    let dlen = digits.as_str().unicode_len();
    let padn: usize = if width > dlen {
        width - dlen
    } else {
        0
    };
    let mut out = String::new();
    let mut pad: usize = 0;
    proof {
        assert(out@ =~= Seq::new(0nat, |i: int| '0'));
    }
    while pad < padn
        invariant
            pad <= padn,
            out@ == Seq::new(pad as nat, |i: int| '0'),
        decreases padn - pad,
    {
        proof {
            reveal_strlit("0");
            assert("0"@ =~= seq!['0']);
        }
        out.append("0");
        pad = pad + 1;
        proof {
            assert(out@ =~= Seq::new(pad as nat, |i: int| '0'));
        }
    }
    out.append(digits.as_str());
    proof {
        if width > dlen {
            assert(out@ =~= spec_padded_dec(v as int, width as int));
        } else {
            assert(out@ =~= spec_padded_dec(v as int, width as int));
        }
    }
    out
}

/// Parse a decimal field width; `None` when `s` is not a well-formed width.
pub fn parse_width(s: &str) -> (r: Option<usize>)
    ensures
        r is Some <==> spec_width_ok(s@),
        r matches Some(w) ==> w == digits_val(s@),
{
    let len = s.unicode_len();
    if len == 0 {
        return None;
    }
    let mut acc: usize = 0;
    let mut i: usize = 0;
    while i < len
        invariant
            0 < len == s@.len(),
            0 <= i <= len,
            forall|j: int| 0 <= j < i ==> '0' <= #[trigger] s@[j] <= '9',
            acc == digits_val(s@.subrange(0, i as int)),
        decreases len - i,
    {
        let c = s.get_char(i);
        let cv = c as u32;
        if cv < 48 || cv > 57 {
            proof {
                assert(!is_digits(s@));
            }
            return None;
        }
        let d = (cv - 48) as usize;
        let next = match acc.checked_mul(10) {
            Some(t) => t.checked_add(d),
            None => None,
        };
        match next {
            Some(t) => {
                proof {
                    let p = s@.subrange(0, i + 1);
                    assert(p.drop_last() =~= s@.subrange(0, i as int));
                    assert(p.last() == s@[i as int]);
                }
                acc = t;
            },
            None => {
                proof {
                    let p = s@.subrange(0, i + 1);
                    assert(p.drop_last() =~= s@.subrange(0, i as int));
                    assert(p.last() == s@[i as int]);
                    assert(digits_val(p) > usize::MAX);
                    if is_digits(s@) {
                        lemma_digits_val_mono_from(s@, i + 1);
                    }
                }
                return None;
            },
        }
        i = i + 1;
    }
    proof {
        assert(s@.subrange(0, len as int) =~= s@);
    }
    Some(acc)
}

/// For a digit sequence, the whole value is at least the value of any prefix.
pub proof fn lemma_digits_val_mono_from(s: Seq<char>, k: int)
    requires
        is_digits(s),
        0 <= k <= s.len(),
    ensures
        digits_val(s) >= digits_val(s.subrange(0, k)),
{
    lemma_digits_val_mono(s, k);
}

/// A value that can fill a URI template placeholder.
pub trait Formattable {
    /// What formatting with the given field-width string yields, if it is
    /// well-formed.
    spec fn spec_format(&self, fmt: Seq<char>) -> Option<Seq<char>>;

    /// Format the value according to `fmt`.
    fn format(&self, fmt: &str) -> (r: Result<String, String>)
        ensures
            r is Ok <==> (*self).spec_format(fmt@) is Some,
            (r matches Ok(s) ==> Some(s@) == (*self).spec_format(fmt@)),
    ;
}

impl Formattable for i32 {
    open spec fn spec_format(&self, fmt: Seq<char>) -> Option<Seq<char>> {
        if spec_width_ok(fmt) {
            Some(spec_padded_dec(*self as int, digits_val(fmt)))
        } else {
            None
        }
    }

    fn format(&self, fmt: &str) -> (r: Result<String, String>) {
        match parse_width(fmt) {
            Some(w) => Ok(format_padded_i32(*self, w)),
            None => Err(String::from_str("format string for i32 must be a decimal field width")),
        }
    }
}

/// The first position of `c` in `t` at or after `from`, or `-1`.
pub open spec fn find_from(t: Seq<char>, c: char, from: int) -> int
    decreases t.len() - from,
{
    if from < 0 || from >= t.len() {
        -1
    } else if t[from] == c {
        from
    } else {
        find_from(t, c, from + 1)
    }
}

/// What a `find_from` result means: `-1` when `c` does not occur at or
/// after `from`, otherwise the first position of `c` there.
pub proof fn lemma_find_from_props(t: Seq<char>, c: char, from: int)
    requires
        0 <= from,
    ensures
        find_from(t, c, from) == -1 ==> forall|j: int|
            from <= j < t.len() ==> t[j] != c,
        find_from(t, c, from) >= 0 ==> {
            &&& from <= find_from(t, c, from) < t.len()
            &&& t[find_from(t, c, from)] == c
            &&& forall|j: int| from <= j < find_from(t, c, from) ==> t[j] != c
        },
    decreases t.len() - from,
{
    if from < t.len() && t[from] != c {
        lemma_find_from_props(t, c, from + 1);
    }
}

/// The first occurrence determines `find_from`.
pub proof fn lemma_find_from_at(t: Seq<char>, c: char, from: int, i: int)
    requires
        0 <= from <= i <= t.len(),
        forall|j: int| from <= j < i ==> t[j] != c,
        i < t.len() ==> t[i] == c,
    ensures
        find_from(t, c, from) == if i < t.len() {
            i
        } else {
            -1int
        },
    decreases i - from,
{
    if from < i {
        lemma_find_from_at(t, c, from + 1, i);
    }
}

/// Find the first occurrence of `c` in `t` at or after `from`.
pub fn find_char(t: &str, c: char, from: usize) -> (r: Option<usize>)
    requires
        from <= t@.len(),
    ensures
        r matches Some(i) ==> from <= i < t@.len() && find_from(t@, c, from as int) == i,
        r is None ==> find_from(t@, c, from as int) == -1,
{
    let len = t.unicode_len();
    let mut i = from;
    while i < len
        invariant
            from <= i <= len,
            len == t@.len(),
            forall|j: int| from <= j < i ==> t@[j] != c,
        decreases len - i,
    {
        if t.get_char(i) == c {
            proof {
                lemma_find_from_at(t@, c, from as int, i as int);
            }
            return Some(i);
        }
        i = i + 1;
    }
    proof {
        lemma_find_from_at(t@, c, from as int, len as int);
    }
    None
}

/// Prepend `s` to the content of `o`, keeping `None` as it is.
pub open spec fn opt_prepend(s: Seq<char>, o: Option<Seq<char>>) -> Option<Seq<char>> {
    match o {
        Some(r) => Some(s + r),
        None => None,
    }
}

/// The result of substituting `x`, `y` and `z` into the template suffix
/// starting at `i`: literal characters are kept; at each `{`, the nearest
/// following `:` and then `}` delimit a placeholder `{key:width}` whose key
/// must be `x`, `y` or `z` and whose width must be a decimal field width,
/// or the whole template is rejected; a `{` with no such delimiters stays
/// literal.
pub open spec fn spec_format_from(t: Seq<char>, i: int, x: int, y: int, z: int) -> Option<
    Seq<char>,
>
    decreases t.len() - i,
    when 0 <= i
    via spec_format_from_decreases
{
    if i >= t.len() {
        Some(Seq::empty())
    } else if t[i] != '{' {
        opt_prepend(seq![t[i]], spec_format_from(t, i + 1, x, y, z))
    } else {
        let j = find_from(t, ':', i + 1);
        if j < 0 {
            opt_prepend(seq!['{'], spec_format_from(t, i + 1, x, y, z))
        } else {
            let k = find_from(t, '}', j + 1);
            if k < 0 {
                opt_prepend(seq!['{'], spec_format_from(t, i + 1, x, y, z))
            } else {
                let key = t.subrange(i + 1, j);
                let w = t.subrange(j + 1, k);
                if !(key == seq!['x'] || key == seq!['y'] || key == seq!['z']) {
                    None
                } else if !spec_width_ok(w) {
                    None
                } else {
                    let v = if key == seq!['x'] {
                        x
                    } else if key == seq!['y'] {
                        y
                    } else {
                        z
                    };
                    opt_prepend(
                        spec_padded_dec(v, digits_val(w)),
                        spec_format_from(t, k + 1, x, y, z),
                    )
                }
            }
        }
    }
}

#[via_fn]
proof fn spec_format_from_decreases(t: Seq<char>, i: int, x: int, y: int, z: int) {
    if 0 <= i < t.len() && t[i] == '{' {
        lemma_find_from_props(t, ':', i + 1);
        let j = find_from(t, ':', i + 1);
        if j >= 0 {
            lemma_find_from_props(t, '}', j + 1);
        }
    }
}

/// The full template with `x`, `y` and `z` substituted, if it is accepted.
pub open spec fn spec_format_tile(t: Seq<char>, x: int, y: int, z: int) -> Option<Seq<char>> {
    spec_format_from(t, 0, x, y, z)
}

/// A template is valid when substitution succeeds; by
/// `lemma_format_valid_indep` this does not depend on the values.
pub open spec fn template_valid(t: Seq<char>) -> bool {
    spec_format_tile(t, 0, 0, 0) is Some
}

/// Whether substitution succeeds depends only on the template, never on
/// the substituted values.
pub proof fn lemma_format_valid_indep(
    t: Seq<char>,
    i: int,
    x: int,
    y: int,
    z: int,
    x2: int,
    y2: int,
    z2: int,
)
    requires
        0 <= i,
    ensures
        spec_format_from(t, i, x, y, z) is Some <==> spec_format_from(t, i, x2, y2, z2) is Some,
    decreases t.len() - i,
{
    if i >= t.len() {
    } else if t[i] != '{' {
        lemma_format_valid_indep(t, i + 1, x, y, z, x2, y2, z2);
    } else {
        lemma_find_from_props(t, ':', i + 1);
        let j = find_from(t, ':', i + 1);
        if j < 0 {
            lemma_format_valid_indep(t, i + 1, x, y, z, x2, y2, z2);
        } else {
            lemma_find_from_props(t, '}', j + 1);
            let k = find_from(t, '}', j + 1);
            if k < 0 {
                lemma_format_valid_indep(t, i + 1, x, y, z, x2, y2, z2);
            } else {
                lemma_format_valid_indep(t, k + 1, x, y, z, x2, y2, z2);
            }
        }
    }
}

/// Formatting a run of non-`{` characters keeps them literally.
proof fn lemma_format_literal_chunk(t: Seq<char>, i: int, p: int, x: int, y: int, z: int)
    requires
        0 <= i <= p <= t.len(),
        forall|j: int| i <= j < p ==> t[j] != '{',
    ensures
        spec_format_from(t, i, x, y, z) == opt_prepend(
            t.subrange(i, p),
            spec_format_from(t, p, x, y, z),
        ),
    decreases p - i,
{
    if i == p {
        assert(t.subrange(i, p) =~= Seq::<char>::empty());
        match spec_format_from(t, p, x, y, z) {
            Some(r) => {
                assert(Seq::<char>::empty() + r =~= r);
            },
            None => {},
        }
    } else {
        lemma_format_literal_chunk(t, i + 1, p, x, y, z);
        assert(t[i] != '{');
        match spec_format_from(t, p, x, y, z) {
            Some(r) => {
                assert(seq![t[i]] + (t.subrange(i + 1, p) + r) =~= t.subrange(i, p) + r);
            },
            None => {},
        }
    }
}

/// Format the template suffix starting at byte-independent character
/// position `i`, substituting the three coordinate values.
fn format_from(template: &str, i: usize, x: i32, y: i32, z: i32) -> (res: Result<String, String>)
    requires
        i <= template@.len(),
    ensures
        res matches Ok(s) ==> spec_format_from(template@, i as int, x as int, y as int, z as int)
            == Some(s@),
        res is Err ==> spec_format_from(template@, i as int, x as int, y as int, z as int)
            is None,
    decreases template@.len() - i,
{
    let ghost t = template@;
    let len = template.unicode_len();
    match find_char(template, '{', i) {
        None => {
            let s = String::from_str(template.substring_char(i, len));
            proof {
                lemma_find_from_props(t, '{', i as int);
                lemma_format_literal_chunk(t, i as int, len as int, x as int, y as int, z as int);
                assert(t.subrange(i as int, len as int) + Seq::<char>::empty() =~= t.subrange(
                    i as int,
                    len as int,
                ));
            }
            Ok(s)
        },
        Some(p) => {
            proof {
                lemma_find_from_props(t, '{', i as int);
                lemma_format_literal_chunk(t, i as int, p as int, x as int, y as int, z as int);
            }
            let colon = find_char(template, ':', p + 1);
            let close = match colon {
                Some(j) => find_char(template, '}', j + 1),
                None => None,
            };
            match (colon, close) {
                (Some(j), Some(k)) => {
                    let ghost key = t.subrange(p + 1, j as int);
                    let ghost w = t.subrange(j + 1, k as int);
                    proof {
                        lemma_find_from_props(t, ':', p + 1);
                        lemma_find_from_props(t, '}', j + 1);
                        assert(t[p as int] == '{');
                        assert(find_from(t, ':', p + 1) == j);
                        assert(find_from(t, '}', j + 1) == k);
                        assert(key.len() == j - p - 1);
                    }
                    // the placeholder key must be exactly `x`, `y` or `z`
                    let key_ok = j == p + 2;
                    if !key_ok {
                        proof {
                            assert(key.len() != 1);
                            assert(key != seq!['x'] && key != seq!['y'] && key != seq!['z']);
                            assert(spec_format_from(t, p as int, x as int, y as int, z as int)
                                is None);
                        }
                        return Err(String::from_str("no value provided for placeholder key"));
                    }
                    let kc = template.get_char(p + 1);
                    proof {
                        assert(key =~= seq![t[p + 1]]);
                        assert(key[0] == kc);
                    }
                    if !(kc == 'x' || kc == 'y' || kc == 'z') {
                        proof {
                            assert(key != seq!['x'] && key != seq!['y'] && key != seq!['z']);
                            assert(spec_format_from(t, p as int, x as int, y as int, z as int)
                                is None);
                        }
                        return Err(String::from_str("no value provided for placeholder key"));
                    }
                    proof {
                        if kc == 'x' {
                            assert(key =~= seq!['x']);
                        } else if kc == 'y' {
                            assert(key =~= seq!['y']);
                            assert(key != seq!['x']);
                        } else {
                            assert(key =~= seq!['z']);
                            assert(key != seq!['x'] && key != seq!['y']);
                        }
                    }
                    let v = if kc == 'x' {
                        x
                    } else if kc == 'y' {
                        y
                    } else {
                        z
                    };
                    let wstr = template.substring_char(j + 1, k);
                    let padded = match v.format(wstr) {
                        Ok(s) => s,
                        Err(e) => {
                            proof {
                                assert(!spec_width_ok(w));
                                assert(spec_format_from(t, p as int, x as int, y as int, z as int)
                                    is None);
                            }
                            return Err(e);
                        },
                    };
                    proof {
                        assert(spec_width_ok(w));
                        assert(padded@ == spec_padded_dec(v as int, digits_val(w)));
                    }
                    let rest = match format_from(template, k + 1, x, y, z) {
                        Ok(s) => s,
                        Err(e) => {
                            proof {
                                assert(spec_format_from(t, p as int, x as int, y as int, z as int)
                                    is None);
                            }
                            return Err(e);
                        },
                    };
                    let mut s = String::from_str(template.substring_char(i, p));
                    s.append(padded.as_str());
                    s.append(rest.as_str());
                    proof {
                        assert(spec_format_from(t, p as int, x as int, y as int, z as int)
                            == Some(padded@ + rest@));
                        assert(t.subrange(i as int, p as int) + padded@ + rest@ =~= t.subrange(
                            i as int,
                            p as int,
                        ) + (padded@ + rest@));
                    }
                    Ok(s)
                },
                _ => {
                    // no closing delimiters: the `{` stays literal
                    proof {
                        lemma_find_from_props(t, ':', p + 1);
                        match colon {
                            Some(j) => {
                                lemma_find_from_props(t, '}', j + 1);
                            },
                            None => {},
                        }
                    }
                    let rest = match format_from(template, p + 1, x, y, z) {
                        Ok(s) => s,
                        Err(e) => {
                            return Err(e);
                        },
                    };
                    let mut s = String::from_str(template.substring_char(i, p + 1));
                    s.append(rest.as_str());
                    proof {
                        assert(t.subrange(i as int, p + 1) =~= t.subrange(i as int, p as int)
                            + seq![t[p as int]]);
                        assert(t.subrange(i as int, p as int) + seq![t[p as int]] + rest@
                            =~= t.subrange(i as int, p as int) + (seq![t[p as int]] + rest@));
                    }
                    Ok(s)
                },
            }
        },
    }
}

/// Substitute a tile coordinate into a URI template: each placeholder
/// `{x:W}`, `{y:W}` or `{z:W}` is replaced by the zero-padded decimal form
/// of the coordinate component, and a malformed placeholder is an error.
pub fn format_template(template: &str, x: i32, y: i32, z: i32) -> (res: Result<String, String>)
    ensures
        res matches Ok(s) ==> spec_format_tile(template@, x as int, y as int, z as int) == Some(
            s@,
        ),
        res is Err ==> spec_format_tile(template@, x as int, y as int, z as int) is None,
        res is Ok <==> template_valid(template@),
{
    proof {
        lemma_format_valid_indep(template@, 0, x as int, y as int, z as int, 0, 0, 0);
    }
    format_from(template, 0, x, y, z)
}

} // verus!
