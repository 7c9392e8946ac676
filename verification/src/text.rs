//! Names and text: building, splitting, folding and reading numbers.

use vstd::prelude::*;
use vstd::string::*;

verus! {

/// `String::push`: appends one character.
pub assume_specification[ String::push ](s: &mut String, c: char)
    ensures
        final(s)@ == old(s)@.push(c),
;

/// The lowercase form of a text: the result of `str::to_lowercase`, which
/// follows the Unicode `Lowercase` derivation.
pub uninterp spec fn lowercase(s: Seq<char>) -> Seq<char>;

/// `str::to_lowercase`.
#[verifier::external_body]
pub(crate) fn to_lower(s: &str) -> (r: String)
    ensures
        r@ == lowercase(s@),
{
    s.to_lowercase()
}

/// The character has the Unicode `White_Space` property.
pub open spec fn white_space(c: char) -> bool {
    let n = c as u32;
    ||| 0x09 <= n <= 0x0d
    ||| n == 0x20 || n == 0x85 || n == 0xa0
    ||| n == 0x1680
    ||| 0x2000 <= n <= 0x200a
    ||| n == 0x2028 || n == 0x2029 || n == 0x202f || n == 0x205f
    ||| n == 0x3000
}

/// Whether a character has the Unicode `White_Space` property.
pub fn is_white(c: char) -> (r: bool)
    ensures
        r == white_space(c),
{
    let n: u32 = c as u32;
    (0x09 <= n && n <= 0x0d) || n == 0x20 || n == 0x85 || n == 0xa0 || n == 0x1680 || (0x2000 <= n
        && n <= 0x200a) || n == 0x2028 || n == 0x2029 || n == 0x202f || n == 0x205f || n == 0x3000
}

/// The decimal digits of `n`, the most significant first.
pub open spec fn digits(n: nat) -> Seq<char>
    decreases n,
{
    if n < 10 {
        seq![('0' as u32 + n) as char]
    } else {
        digits(n / 10).push(('0' as u32 + n % 10) as char)
    }
}

/// The decimal form of `n`, with a minus sign when negative.
pub open spec fn decimal(n: int) -> Seq<char> {
    if n < 0 {
        seq!['-'] + digits((-n) as nat)
    } else {
        digits(n as nat)
    }
}

/// `i128::to_string`: the decimal form, without leading zeros or a plus sign.
#[verifier::external_body]
pub(crate) fn decimal_text(n: i128) -> (r: String)
    ensures
        r@ == decimal(n as int),
{
    n.to_string()
}

/// The characters of a text.
pub fn chars_of(s: &str) -> (r: Vec<char>)
    ensures
        r@ == s@,
{
    let mut r: Vec<char> = Vec::new();
    for c in iter: s.chars()
        invariant
            iter.seq() == s@,
            r@ == s@.take(iter.index()),
    {
        assert(s@.take(iter.index() + 1) =~= s@.take(iter.index()).push(c));
        r.push(c);
    }
    assert(s@.take(s@.len() as int) =~= s@);
    r
}

/// The text of `chars[from..to]`.
pub fn text_of(chars: &Vec<char>, from: usize, to: usize) -> (r: String)
    requires
        from <= to <= chars@.len(),
    ensures
        r@ == chars@.subrange(from as int, to as int),
{
    let mut r = String::new();
    let mut i: usize = from;
    while i < to
        invariant
            from <= i <= to <= chars@.len(),
            r@ == chars@.subrange(from as int, i as int),
        decreases to - i,
    {
        r.push(chars[i]);
        assert(chars@.subrange(from as int, i + 1) =~= chars@.subrange(from as int, i as int).push(
            chars@[i as int],
        ));
        i = i + 1;
    }
    r
}

/// The two texts joined.
pub fn join2(a: &str, b: &str) -> (r: String)
    ensures
        r@ == a@ + b@,
{
    let mut r = a.to_owned();
    r.append(b);
    r
}

/// The three texts joined.
pub fn join3(a: &str, b: &str, c: &str) -> (r: String)
    ensures
        r@ == a@ + b@ + c@,
{
    let mut r = a.to_owned();
    r.append(b);
    r.append(c);
    r
}

/// The texts of a list of names.
pub open spec fn names(s: Seq<String>) -> Seq<Seq<char>> {
    Seq::new(s.len(), |i: int| s[i]@)
}

/// A copy of a list of names.
pub fn clone_names(v: &[String]) -> (r: Vec<String>)
    ensures
        r@ == v@,
{
    let mut r: Vec<String> = Vec::new();
    let mut i: usize = 0;
    while i < v.len()
        invariant
            i <= v@.len(),
            r@.len() == i,
            forall|j: int| 0 <= j < i ==> #[trigger] r@[j] == v@[j],
        decreases v@.len() - i,
    {
        r.push(v[i].clone());
        i = i + 1;
    }
    assert(r@ =~= v@);
    r
}

/// Whether two lists of names are the same.
pub fn names_equal(a: &[String], b: &[String]) -> (r: bool)
    ensures
        r == (names(a@) == names(b@)),
{
    if a.len() != b.len() {
        proof {
            assert(names(a@).len() != names(b@).len());
        }
        return false;
    }
    let mut i: usize = 0;
    while i < a.len()
        invariant
            i <= a@.len(),
            a@.len() == b@.len(),
            forall|j: int| 0 <= j < i ==> a@[j]@ == b@[j]@,
        decreases a@.len() - i,
    {
        if !crate::bytes::str_equal(a[i].as_str(), b[i].as_str()) {
            proof {
                assert(names(a@)[i as int] != names(b@)[i as int]);
            }
            return false;
        }
        i = i + 1;
    }
    assert(names(a@) =~= names(b@));
    true
}

/// Whether a list of names holds `name`.
pub fn names_contain(v: &[String], name: &str) -> (r: bool)
    ensures
        r == names(v@).contains(name@),
{
    let mut i: usize = 0;
    while i < v.len()
        invariant
            i <= v@.len(),
            forall|j: int| 0 <= j < i ==> v@[j]@ != name@,
        decreases v@.len() - i,
    {
        if crate::bytes::str_equal(v[i].as_str(), name) {
            proof {
                assert(names(v@)[i as int] == name@);
            }
            return true;
        }
        i = i + 1;
    }
    proof {
        if names(v@).contains(name@) {
            let j = choose|j: int| 0 <= j < names(v@).len() && names(v@)[j] == name@;
            assert(v@[j]@ == name@);
        }
    }
    false
}

/// `std::str::from_utf8`: the text that the bytes are the UTF-8 form of, if
/// they are one.
#[verifier::external_body]
fn utf8_str(b: &[u8]) -> (r: Option<&str>)
    ensures
        r is Some <==> vstd::utf8::valid_utf8(b@),
        r is Some ==> r->Some_0@ == vstd::utf8::decode_utf8(b@),
{
    std::str::from_utf8(b).ok()
}

/// The text that the bytes are the UTF-8 form of, if they are one.
pub fn utf8_text(b: &[u8]) -> (r: Option<String>)
    ensures
        match r {
            Some(s) => vstd::utf8::valid_utf8(b@) && s@ == vstd::utf8::decode_utf8(b@),
            None => !vstd::utf8::valid_utf8(b@),
        },
{
    match utf8_str(b) {
        Some(s) => Some(s.to_owned()),
        None => None,
    }
}

/// The texts joined with a separator between each two.
pub open spec fn joined(parts: Seq<Seq<char>>, sep: Seq<char>) -> Seq<char>
    decreases parts.len(),
{
    if parts.len() == 0 {
        Seq::empty()
    } else if parts.len() == 1 {
        parts[0]
    } else {
        joined(parts.drop_last(), sep) + sep + parts.last()
    }
}

/// The texts joined with a separator between each two.
pub fn join_all(parts: &[String], sep: &str) -> (r: String)
    ensures
        r@ == joined(names(parts@), sep@),
{
    let mut r = String::new();
    let mut i: usize = 0;
    while i < parts.len()
        invariant
            i <= parts@.len(),
            r@ == joined(names(parts@).take(i as int), sep@),
        decreases parts@.len() - i,
    {
        let ghost next = names(parts@).take(i + 1);
        assert(next.drop_last() =~= names(parts@).take(i as int));
        if i > 0 {
            r.append(sep);
        }
        r.append(parts[i].as_str());
        proof {
            if i == 0 {
                assert(r@ =~= next[0]);
            }
        }
        i = i + 1;
    }
    assert(names(parts@).take(parts@.len() as int) =~= names(parts@));
    r
}

/// `s` without the white space around it.
pub open spec fn is_trimmed(s: Seq<char>, r: Seq<char>) -> bool {
    exists|i: int, j: int| #[trigger] trimmed_at(s, i, j) && r == s.subrange(i, j)
}

/// `s[i..j]` is what is left of `s` without the white space around it.
pub open spec fn trimmed_at(s: Seq<char>, i: int, j: int) -> bool {
    &&& 0 <= i <= j <= s.len()
    &&& forall|k: int| 0 <= k < i ==> white_space(#[trigger] s[k])
    &&& forall|k: int| j <= k < s.len() ==> white_space(#[trigger] s[k])
    &&& i < j ==> !white_space(s[i]) && !white_space(s[j - 1])
    &&& i == j ==> i == s.len()
}

/// Only one text is `s` without the white space around it.
pub proof fn lemma_trimmed_unique(s: Seq<char>, a: Seq<char>, b: Seq<char>)
    requires
        is_trimmed(s, a),
        is_trimmed(s, b),
    ensures
        a == b,
{
    let (i, j) = choose|i: int, j: int| #[trigger] trimmed_at(s, i, j) && a == s.subrange(i, j);
    let (k, l) = choose|k: int, l: int| #[trigger] trimmed_at(s, k, l) && b == s.subrange(k, l);
    if i < j && k < l {
        if i < k {
            assert(white_space(s[i]));
        }
        if k < i {
            assert(white_space(s[k]));
        }
        if j < l {
            assert(white_space(s[l - 1]));
        }
        if l < j {
            assert(white_space(s[j - 1]));
        }
    } else if i < j {
        assert(white_space(s[i]));
    } else if k < l {
        assert(white_space(s[k]));
    } else {
        assert(a =~= b);
    }
}

/// `str::trim`: the text without leading and trailing white space.
pub fn trim(s: &str) -> (r: String)
    ensures
        is_trimmed(s@, r@),
{
    let chars = chars_of(s);
    let n: usize = chars.len();
    let mut i: usize = 0;
    while i < n && is_white(chars[i])
        invariant
            i <= n,
            n == chars@.len(),
            forall|k: int| 0 <= k < i ==> white_space(#[trigger] chars@[k]),
        decreases n - i,
    {
        i = i + 1;
    }
    let mut j: usize = n;
    while j > i && is_white(chars[j - 1])
        invariant
            i <= j <= n,
            n == chars@.len(),
            forall|k: int| j <= k < n ==> white_space(#[trigger] chars@[k]),
            i < n ==> !white_space(chars@[i as int]),
        decreases j,
    {
        j = j - 1;
    }
    proof {
        if i == j && i < n {
            assert(white_space(chars@[i as int]));
        }
        assert(trimmed_at(s@, i as int, j as int));
    }
    text_of(&chars, i, j)
}

// ---------------------------------------------------------------------------
// Reading numbers
// ---------------------------------------------------------------------------
/// The character is a decimal digit.
pub open spec fn is_digit(c: char) -> bool {
    '0' <= c <= '9'
}

/// The number that a run of digits stands for.
pub open spec fn digits_value(s: Seq<char>) -> int
    decreases s.len(),
{
    if s.len() == 0 {
        0
    } else {
        digits_value(s.drop_last()) * 10 + (s.last() as u32 - '0' as u32)
    }
}

/// At least one character, and every one a digit.
pub open spec fn all_digits(s: Seq<char>) -> bool {
    s.len() > 0 && forall|i: int| 0 <= i < s.len() ==> is_digit(#[trigger] s[i])
}

/// The whole number that `s` is written as: an optional sign followed by
/// digits only.
pub open spec fn read_int(s: Seq<char>) -> Option<int> {
    if s.len() > 0 && s[0] == '-' {
        if all_digits(s.skip(1)) {
            Some(-digits_value(s.skip(1)))
        } else {
            None
        }
    } else if s.len() > 0 && s[0] == '+' {
        if all_digits(s.skip(1)) {
            Some(digits_value(s.skip(1)))
        } else {
            None
        }
    } else if all_digits(s) {
        Some(digits_value(s))
    } else {
        None
    }
}

/// `str::parse::<i64>`: the number, unless the text is not one or it does not
/// fit.
pub open spec fn parsed_i64(s: Seq<char>) -> Option<i64> {
    match read_int(s) {
        Some(n) => if i64::MIN <= n <= i64::MAX {
            Some(n as i64)
        } else {
            None
        },
        None => None,
    }
}

/// `str::parse::<usize>`; an unsigned number takes no minus sign.
pub open spec fn parsed_usize(s: Seq<char>) -> Option<usize> {
    match read_int(s) {
        Some(n) => if s[0] != '-' && 0 <= n <= usize::MAX {
            Some(n as usize)
        } else {
            None
        },
        None => None,
    }
}

proof fn lemma_digits_value_grows(s: Seq<char>, i: int)
    requires
        0 <= i <= s.len(),
        forall|k: int| 0 <= k < s.len() ==> is_digit(#[trigger] s[k]),
    ensures
        0 <= digits_value(s.take(i)) <= digits_value(s),
    decreases s.len(),
{
    if s.len() > 0 {
        let t = s.drop_last();
        assert(forall|k: int| 0 <= k < t.len() ==> is_digit(#[trigger] t[k])) by {
            assert(forall|k: int| 0 <= k < t.len() ==> t[k] == s[k]);
        }
        lemma_digits_value_grows(t, if i == s.len() { t.len() as int } else { i });
        if i < s.len() {
            assert(s.take(i) =~= t.take(i));
        } else {
            assert(s.take(i) =~= s);
            assert(t.take(t.len() as int) =~= t);
        }
        assert(is_digit(s[s.len() - 1]));
    }
}

/// The value of the digits in `chars[from..to]`, if they are digits and their
/// value is at most `limit`.
fn read_digits(chars: &Vec<char>, from: usize, to: usize, limit: u128) -> (r: Option<u128>)
    requires
        from <= to <= chars@.len(),
        limit <= 0x1_0000_0000_0000_0000,
    ensures
        ({
            let s = chars@.subrange(from as int, to as int);
            match r {
                Some(n) => all_digits(s) && n == digits_value(s) && n <= limit,
                None => !all_digits(s) || digits_value(s) > limit,
            }
        }),
{
    let ghost s = chars@.subrange(from as int, to as int);
    if from == to {
        return None;
    }
    let mut n: u128 = 0;
    let mut i: usize = from;
    while i < to
        invariant
            from <= i <= to <= chars@.len(),
            from < to,
            limit <= 0x1_0000_0000_0000_0000,
            s == chars@.subrange(from as int, to as int),
            forall|k: int| 0 <= k < i - from ==> is_digit(#[trigger] s[k]),
            n == digits_value(s.take(i - from)),
            n <= limit,
        decreases to - i,
    {
        let c = chars[i];
        if c < '0' || c > '9' {
            assert(!is_digit(s[i - from]));
            return None;
        }
        let d: u32 = c as u32 - '0' as u32;
        n = n * 10 + d as u128;
        proof {
            let k = i - from;
            assert(s.take(k + 1).drop_last() =~= s.take(k));
            assert(s[k] == c);
        }
        i = i + 1;
        if n > limit {
            proof {
                if all_digits(s) {
                    lemma_digits_value_grows(s, i - from);
                }
            }
            return None;
        }
    }
    assert(s.take(to - from) =~= s);
    Some(n)
}

/// `chars[from..to].parse::<i64>()`.
pub fn parse_i64(chars: &Vec<char>, from: usize, to: usize) -> (r: Option<i64>)
    requires
        from <= to <= chars@.len(),
    ensures
        r == parsed_i64(chars@.subrange(from as int, to as int)),
{
    let ghost s = chars@.subrange(from as int, to as int);
    if from == to {
        return None;
    }
    let first = chars[from];
    assert(first == s[0]);
    assert(chars@.subrange(from + 1, to as int) =~= s.skip(1));
    if first == '-' {
        match read_digits(chars, from + 1, to, 0x8000_0000_0000_0000) {
            Some(n) => {
                if n == 0x8000_0000_0000_0000 {
                    Some(i64::MIN)
                } else {
                    Some(-(n as i64))
                }
            },
            None => None,
        }
    } else if first == '+' {
        match read_digits(chars, from + 1, to, 0x7FFF_FFFF_FFFF_FFFF) {
            Some(n) => Some(n as i64),
            None => None,
        }
    } else {
        match read_digits(chars, from, to, 0x7FFF_FFFF_FFFF_FFFF) {
            Some(n) => Some(n as i64),
            None => None,
        }
    }
}

/// `s.parse::<usize>()`.
pub fn parse_usize(s: &str) -> (r: Option<usize>)
    ensures
        r == parsed_usize(s@),
{
    let chars = chars_of(s);
    let n: usize = chars.len();
    if n == 0 {
        return None;
    }
    assert(s@.subrange(0, n as int) =~= s@);
    assert(s@.subrange(1, n as int) =~= s@.skip(1));
    let first = chars[0];
    if first == '-' {
        return None;
    }
    let from: usize = if first == '+' {
        1
    } else {
        0
    };
    match read_digits(&chars, from, n, usize::MAX as u128) {
        Some(v) => Some(v as usize),
        None => {
            proof {
                let t = chars@.subrange(from as int, n as int);
                if all_digits(t) {
                    lemma_digits_value_grows(t, 0);
                }
            }
            None
        },
    }
}

proof fn lemma_digits_are_digits(n: nat)
    ensures
        digits(n).len() > 0,
        forall|i: int| 0 <= i < digits(n).len() ==> '0' <= #[trigger] digits(n)[i] <= '9',
    decreases n,
{
    if n >= 10 {
        lemma_digits_are_digits(n / 10);
    }
}

proof fn lemma_digits_tell_apart(a: nat, b: nat)
    requires
        digits(a) == digits(b),
    ensures
        a == b,
    decreases a,
{
    lemma_digits_are_digits(a / 10);
    lemma_digits_are_digits(b / 10);
    let x = digits(a);
    let y = digits(b);
    if a < 10 && b < 10 {
        assert(x[0] as int == 48 + a);
        assert(y[0] as int == 48 + b);
    } else if a >= 10 && b >= 10 {
        assert(x.last() as int == 48 + a % 10);
        assert(y.last() as int == 48 + b % 10);
        assert(x.drop_last() =~= digits(a / 10));
        assert(y.drop_last() =~= digits(b / 10));
        lemma_digits_tell_apart(a / 10, b / 10);
    } else {
        assert(x.len() != y.len());
    }
}

/// Different whole numbers have different decimal forms.
pub proof fn law_decimals_tell_apart(a: int, b: int)
    requires
        decimal(a) == decimal(b),
    ensures
        a == b,
{
    let m: nat = if a < 0 {
        (-a) as nat
    } else {
        a as nat
    };
    let n: nat = if b < 0 {
        (-b) as nat
    } else {
        b as nat
    };
    lemma_digits_are_digits(m);
    lemma_digits_are_digits(n);
    if a < 0 && b < 0 {
        assert(decimal(a).skip(1) =~= digits(m));
        assert(decimal(b).skip(1) =~= digits(n));
    } else if a < 0 {
        assert(decimal(a)[0] == '-');
        assert(digits(n)[0] >= '0');
    } else if b < 0 {
        assert(decimal(b)[0] == '-');
        assert(digits(m)[0] >= '0');
    }
    lemma_digits_tell_apart(m, n);
}

/// The decimal form of a whole number holds digits and a minus sign alone.
pub proof fn lemma_decimal_chars(a: int)
    ensures
        decimal(a).len() > 0,
        forall|i: int|
            0 <= i < decimal(a).len() ==> (#[trigger] decimal(a)[i]) == '-' || '0' <= decimal(a)[i]
                <= '9',
{
    if a < 0 {
        lemma_digits_are_digits((-a) as nat);
        assert forall|i: int| 0 <= i < decimal(a).len() implies (#[trigger] decimal(a)[i]) == '-'
            || '0' <= decimal(a)[i] <= '9' by {
            if i > 0 {
                assert(decimal(a)[i] == digits((-a) as nat)[i - 1]);
            }
        }
    } else {
        lemma_digits_are_digits(a as nat);
    }
}

/// Joined texts are told apart where none of them holds the character that separates
/// them: how many there are, and which is which, is not lost.
pub proof fn law_join_keeps_parts(a: Seq<Seq<char>>, b: Seq<Seq<char>>, sep: char)
    requires
        a.len() > 0,
        b.len() > 0,
        forall|i: int| 0 <= i < a.len() ==> !(#[trigger] a[i]).contains(sep),
        forall|i: int| 0 <= i < b.len() ==> !(#[trigger] b[i]).contains(sep),
        joined(a, seq![sep]) == joined(b, seq![sep]),
    ensures
        a == b,
    decreases a.len(),
{
    let x = joined(a, seq![sep]);
    let la = a.last();
    let lb = b.last();
    let n = x.len();
    // The last separator stands before the last text on both sides.
    if a.len() > 1 && b.len() > 1 {
        let p = n - la.len() - 1;
        let q = n - lb.len() - 1;
        assert(x[p] == sep && x[q] == sep);
        if p < q {
            assert(la[q - p - 1] == x[q]);
            assert(la.contains(sep));
        }
        if q < p {
            assert(lb[p - q - 1] == x[p]);
            assert(lb.contains(sep));
        }
        assert(la =~= x.skip(p + 1));
        assert(lb =~= x.skip(p + 1));
        assert(joined(a.drop_last(), seq![sep]) =~= x.take(p));
        assert(joined(b.drop_last(), seq![sep]) =~= x.take(p));
        law_join_keeps_parts(a.drop_last(), b.drop_last(), sep);
        assert(a =~= a.drop_last().push(la));
        assert(b =~= b.drop_last().push(lb));
    } else if a.len() > 1 {
        let p = n - la.len() - 1;
        assert(x[p] == sep);
        assert(lb[p] == sep);
        assert(lb.contains(sep));
    } else if b.len() > 1 {
        let q = n - lb.len() - 1;
        assert(x[q] == sep);
        assert(la[q] == sep);
        assert(la.contains(sep));
    } else {
        assert(a =~= seq![la]);
        assert(b =~= seq![lb]);
    }
}

proof fn lemma_digits_value(n: nat)
    ensures
        digits_value(digits(n)) == n,
    decreases n,
{
    let s = digits(n);
    if n < 10 {
        assert(s.drop_last() =~= Seq::<char>::empty());
        assert(digits_value(s.drop_last()) == 0);
        assert(s.last() as u32 == 48 + n);
    } else {
        lemma_digits_value(n / 10);
        assert(s.drop_last() =~= digits(n / 10));
        assert(s.last() as u32 == 48 + n % 10);
    }
}

/// A whole number is read back from its decimal form.
pub proof fn law_decimal_is_read(n: int)
    ensures
        read_int(decimal(n)) == Some(n),
        i64::MIN <= n <= i64::MAX ==> parsed_i64(decimal(n)) == Some(n as i64),
        0 <= n <= usize::MAX ==> parsed_usize(decimal(n)) == Some(n as usize),
        !(0 <= n <= usize::MAX) ==> parsed_usize(decimal(n)) is None,
{
    let m: nat = if n < 0 {
        (-n) as nat
    } else {
        n as nat
    };
    lemma_digits_value(m);
    lemma_digits_are_digits(m);
    assert(digits(m)[0] >= '0');
    if n < 0 {
        assert(decimal(n)[0] == '-');
        assert(decimal(n).skip(1) =~= digits(m));
    }
}

/// The decimal form of a whole number that is not negative holds digits alone.
pub proof fn lemma_decimal_digits(n: int)
    requires
        0 <= n,
    ensures
        forall|i: int| 0 <= i < decimal(n).len() ==> '0' <= #[trigger] decimal(n)[i] <= '9',
{
    lemma_digits_are_digits(n as nat);
}

} // verus!
