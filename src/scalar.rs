//! Scalars: trimming, and classifying a piece of text as null, boolean,
//! integer, float or string.

use vstd::prelude::*;
use crate::nodes::{Node, NodeView, Numeric, NumericView};
use crate::strings::string_from_chars;

verus! {

/// The Unicode `White_Space` property, which `char::is_whitespace` and
/// `str::trim` go by.
pub open spec fn is_white_space(c: char) -> bool {
    let u = c as u32;
    ||| 0x09 <= u <= 0x0D
    ||| u == 0x20
    ||| u == 0x85
    ||| u == 0xA0
    ||| u == 0x1680
    ||| 0x2000 <= u <= 0x200A
    ||| u == 0x2028
    ||| u == 0x2029
    ||| u == 0x202F
    ||| u == 0x205F
    ||| u == 0x3000
}

/// `s` without its leading white space.
pub open spec fn trim_start(s: Seq<char>) -> Seq<char>
    decreases s.len(),
{
    if s.len() > 0 && is_white_space(s[0]) {
        trim_start(s.drop_first())
    } else {
        s
    }
}

/// `s` without its trailing white space.
pub open spec fn trim_end(s: Seq<char>) -> Seq<char>
    decreases s.len(),
{
    if s.len() > 0 && is_white_space(s.last()) {
        trim_end(s.drop_last())
    } else {
        s
    }
}

/// `s` without leading and trailing white space.
pub open spec fn trim(s: Seq<char>) -> Seq<char> {
    trim_end(trim_start(s))
}

pub open spec fn is_digit(c: char) -> bool {
    '0' <= c <= '9'
}

/// The number that a run of decimal digits writes.
pub open spec fn digits_value(s: Seq<char>) -> int
    decreases s.len(),
{
    if s.len() == 0 {
        0
    } else {
        digits_value(s.drop_last()) * 10 + (s.last() as int - '0' as int)
    }
}

pub open spec fn has_sign(s: Seq<char>) -> bool {
    s.len() > 0 && (s[0] == '+' || s[0] == '-')
}

/// `s` without its sign, if it has one.
pub open spec fn unsigned_part(s: Seq<char>) -> Seq<char> {
    if has_sign(s) {
        s.drop_first()
    } else {
        s
    }
}

/// The value of a sign followed by digits.
pub open spec fn integer_value(s: Seq<char>) -> int {
    if has_sign(s) && s[0] == '-' {
        -digits_value(unsigned_part(s))
    } else {
        digits_value(unsigned_part(s))
    }
}

/// Text that reads as a 64-bit signed integer: an optional `+` or `-`, then
/// one or more ASCII digits, with a value in the range of `i64`.
pub open spec fn is_i64_text(s: Seq<char>) -> bool {
    &&& is_digits(unsigned_part(s))
    &&& i64::MIN <= integer_value(s) <= i64::MAX
}

/// One or more ASCII digits.
pub open spec fn is_digits(s: Seq<char>) -> bool {
    &&& s.len() > 0
    &&& forall|i: int| 0 <= i < s.len() ==> is_digit(#[trigger] s[i])
}

/// The code of a character, with ASCII capitals taken to lower case.
pub open spec fn lower_code(c: char) -> u32 {
    if 'A' <= c <= 'Z' {
        (c as u32 + 32) as u32
    } else {
        c as u32
    }
}

/// Whether `s` from position `i` on is the lower-case word `w`, letters
/// compared regardless of case.
pub open spec fn is_word_at(s: Seq<char>, i: int, w: Seq<char>) -> bool {
    &&& s.len() - i == w.len()
    &&& forall|k: int| 0 <= k < w.len() ==> lower_code(#[trigger] s[i + k]) == w[k] as u32
}

/// The end of the run of digits that starts at `i`.
pub open spec fn digit_run(s: Seq<char>, i: int) -> int
    decreases s.len() - i,
{
    if 0 <= i < s.len() && is_digit(s[i]) {
        digit_run(s, i + 1)
    } else {
        i
    }
}

/// Whether `s` from `i` on is empty or an exponent: `e` or `E`, an optional
/// sign, one or more digits.
pub open spec fn is_exponent_at(s: Seq<char>, i: int) -> bool {
    ||| i == s.len()
    ||| {
        &&& 0 <= i < s.len()
        &&& lower_code(s[i]) == 'e' as u32
        &&& {
            let j = if i + 1 < s.len() && (s[i + 1] == '+' || s[i + 1] == '-') {
                i + 2
            } else {
                i + 1
            };
            j < s.len() && digit_run(s, j) == s.len()
        }
    }
}

/// Whether `s` from `i` on is a decimal number: digits, or digits and a
/// point, or a point and digits, with at least one digit in all, then an
/// optional exponent.
pub open spec fn is_decimal_at(s: Seq<char>, i: int) -> bool {
    let a = digit_run(s, i);
    if a < s.len() && s[a] == '.' {
        let b = digit_run(s, a + 1);
        (a > i || b > a + 1) && is_exponent_at(s, b)
    } else {
        a > i && is_exponent_at(s, a)
    }
}

/// Text that reads as a 64-bit float, by the grammar that `f64`'s `FromStr`
/// documents: an optional sign, then `inf`, `infinity`, `nan` or a decimal
/// number, letters in any case.
pub open spec fn is_float_text(s: Seq<char>) -> bool {
    let i: int = if has_sign(s) { 1 } else { 0 };
    ||| is_word_at(s, i, seq!['i', 'n', 'f'])
    ||| is_word_at(s, i, seq!['i', 'n', 'f', 'i', 'n', 'i', 't', 'y'])
    ||| is_word_at(s, i, seq!['n', 'a', 'n'])
    ||| is_decimal_at(s, i)
}

/// The tree a scalar text stands for. The first rule that applies decides:
/// `null` and `~` are null, `true` and `false` booleans, integer text an
/// integer, float text a float, and anything else the text itself.
pub open spec fn classify(s: Seq<char>) -> NodeView {
    if s == seq!['n', 'u', 'l', 'l'] || s == seq!['~'] {
        NodeView::Null
    } else if s == seq!['t', 'r', 'u', 'e'] {
        NodeView::Boolean(true)
    } else if s == seq!['f', 'a', 'l', 's', 'e'] {
        NodeView::Boolean(false)
    } else if is_i64_text(s) {
        NodeView::Number(NumericView::Integer(integer_value(s) as i64))
    } else if is_float_text(s) {
        NodeView::Number(NumericView::Float(s))
    } else {
        NodeView::Str(s)
    }
}

/// Whether `c` has the Unicode `White_Space` property.
pub fn white_space(c: char) -> (r: bool)
    ensures
        r == is_white_space(c),
{
    let u = c as u32;
    (0x09 <= u && u <= 0x0D) || u == 0x20 || u == 0x85 || u == 0xA0 || u == 0x1680 || (0x2000 <= u
        && u <= 0x200A) || u == 0x2028 || u == 0x2029 || u == 0x202F || u == 0x205F || u == 0x3000
}

/// The characters of `v` from `lo` up to `hi`.
pub fn copy_range(v: &Vec<char>, lo: usize, hi: usize) -> (r: Vec<char>)
    requires
        lo <= hi <= v@.len(),
    ensures
        r@ == v@.subrange(lo as int, hi as int),
{
    let mut r: Vec<char> = Vec::new();
    let mut i: usize = lo;
    while i < hi
        invariant
            lo <= i <= hi <= v@.len(),
            r@ == v@.subrange(lo as int, i as int),
        decreases hi - i,
    {
        r.push(v[i]);
        i = i + 1;
        assert(r@ =~= v@.subrange(lo as int, i as int));
    }
    r
}

/// `v` without leading and trailing white space.
pub fn trimmed(v: &Vec<char>) -> (r: Vec<char>)
    ensures
        r@ == trim(v@),
{
    let n = v.len();
    let mut lo: usize = 0;
    assert(v@.subrange(0, n as int) =~= v@);
    while lo < n && white_space(v[lo])
        invariant
            n == v@.len(),
            lo <= n,
            trim_start(v@) == trim_start(v@.subrange(lo as int, n as int)),
        decreases n - lo,
    {
        assert(v@.subrange(lo as int, n as int).drop_first() =~= v@.subrange(lo + 1, n as int));
        lo = lo + 1;
    }
    let ghost front = v@.subrange(lo as int, n as int);
    assert(trim_start(v@) == front);
    let mut hi: usize = n;
    while hi > lo && white_space(v[hi - 1])
        invariant
            n == v@.len(),
            lo <= hi <= n,
            front == v@.subrange(lo as int, n as int),
            trim_end(front) == trim_end(v@.subrange(lo as int, hi as int)),
        decreases hi,
    {
        assert(v@.subrange(lo as int, hi as int).drop_last() =~= v@.subrange(lo as int, hi - 1));
        hi = hi - 1;
    }
    copy_range(v, lo, hi)
}

/// Whether `v` holds exactly the characters of `w`.
fn same_chars(v: &Vec<char>, w: &[char]) -> (r: bool)
    ensures
        r == (v@ == w@),
{
    if v.len() != w.len() {
        return false;
    }
    let mut i: usize = 0;
    while i < v.len()
        invariant
            v@.len() == w@.len(),
            i <= v@.len(),
            forall|k: int| 0 <= k < i ==> v@[k] == w@[k],
        decreases v@.len() - i,
    {
        if v[i] != w[i] {
            return false;
        }
        i = i + 1;
    }
    assert(v@ =~= w@);
    true
}


proof fn lemma_digits_nonneg(s: Seq<char>)
    requires
        forall|i: int| 0 <= i < s.len() ==> is_digit(#[trigger] s[i]),
    ensures
        digits_value(s) >= 0,
    decreases s.len(),
{
    if s.len() > 0 {
        lemma_digits_nonneg(s.drop_last());
    }
}

/// A run of digits writes at least the number that any of its prefixes
/// writes.
proof fn lemma_digits_prefix(s: Seq<char>, k: int)
    requires
        0 <= k <= s.len(),
        forall|i: int| 0 <= i < s.len() ==> is_digit(#[trigger] s[i]),
    ensures
        digits_value(s.subrange(0, k)) <= digits_value(s),
    decreases s.len(),
{
    if k < s.len() {
        lemma_digits_prefix(s.drop_last(), k);
        assert(s.drop_last().subrange(0, k) =~= s.subrange(0, k));
        lemma_digits_nonneg(s.drop_last());
    } else {
        assert(s.subrange(0, k) =~= s);
    }
}

proof fn lemma_digits_step(s: Seq<char>, lo: int, i: int)
    requires
        0 <= lo <= i < s.len(),
    ensures
        digits_value(s.subrange(lo, i + 1)) == digits_value(s.subrange(lo, i)) * 10 + (s[i] as int
            - '0' as int),
{
    assert(s.subrange(lo, i + 1).drop_last() =~= s.subrange(lo, i));
}

/// The value of `v` when it reads as an `i64`, as `str::parse::<i64>`
/// accepts it.
pub fn parse_i64(v: &Vec<char>) -> (r: Option<i64>)
    ensures
        r == (if is_i64_text(v@) {
            Some(integer_value(v@) as i64)
        } else {
            None
        }),
{
    let n = v.len();
    let signed = n > 0 && (v[0] == '+' || v[0] == '-');
    let negative = n > 0 && v[0] == '-';
    let start: usize = if signed {
        1
    } else {
        0
    };
    let ghost d = unsigned_part(v@);
    assert(d =~= v@.subrange(start as int, n as int));
    if start == n {
        return None;
    }
    let limit: u128 = if negative {
        9223372036854775808
    } else {
        9223372036854775807
    };
    let mut acc: u128 = 0;
    let mut i: usize = start;
    assert(v@.subrange(start as int, start as int) =~= Seq::<char>::empty());
    while i < n
        invariant
            n == v@.len(),
            start <= i <= n,
            d == v@.subrange(start as int, n as int),
            d == unsigned_part(v@),
            negative == (n > 0 && v@[0] == '-'),
            acc == digits_value(v@.subrange(start as int, i as int)),
            acc <= limit,
            limit == (if negative {
                9223372036854775808u128
            } else {
                9223372036854775807u128
            }),
            forall|k: int| start <= k < i ==> is_digit(#[trigger] v@[k]),
        decreases n - i,
    {
        let c = v[i];
        if !('0' <= c && c <= '9') {
            assert(d[i - start] == v@[i as int]);
            assert(!is_digit(v@[i as int]));
            return None;
        }
        let digit = (c as u32 - '0' as u32) as u128;
        let next = acc * 10 + digit;
        proof {
            lemma_digits_step(v@, start as int, i as int);
        }
        if next > limit {
            proof {
                if is_digits(d) {
                    assert(d.subrange(0, i + 1 - start) =~= v@.subrange(start as int, i + 1));
                    lemma_digits_prefix(d, i + 1 - start);
                }
            }
            return None;
        }
        acc = next;
        i = i + 1;
    }
    assert forall|k: int| 0 <= k < d.len() implies is_digit(#[trigger] d[k]) by {
        assert(d[k] == v@[start + k]);
    }
    if negative {
        Some((0 - acc as i128) as i64)
    } else {
        Some(acc as i64)
    }
}

/// `lower_code(c)`.
fn lower_code_of(c: char) -> (u: u32)
    ensures
        u == lower_code(c),
{
    let u = c as u32;
    if 'A' <= c && c <= 'Z' {
        u + 32
    } else {
        u
    }
}

/// `digit_run(v@, i)`.
fn digit_run_from(v: &Vec<char>, i: usize) -> (r: usize)
    requires
        i <= v@.len(),
    ensures
        r == digit_run(v@, i as int),
        i <= r <= v@.len(),
{
    let mut j: usize = i;
    while j < v.len() && '0' <= v[j] && v[j] <= '9'
        invariant
            i <= j <= v@.len(),
            digit_run(v@, i as int) == digit_run(v@, j as int),
        decreases v@.len() - j,
    {
        j = j + 1;
    }
    j
}

/// `is_word_at(v@, i, w@)`.
fn word_at(v: &Vec<char>, i: usize, w: &[char]) -> (r: bool)
    requires
        i <= v@.len(),
    ensures
        r == is_word_at(v@, i as int, w@),
{
    if v.len() - i != w.len() {
        return false;
    }
    let mut j: usize = i;
    while j < v.len()
        invariant
            i <= j <= v@.len(),
            v@.len() - i == w@.len(),
            forall|m: int| 0 <= m < j - i ==> lower_code(#[trigger] v@[i + m]) == w@[m] as u32,
        decreases v@.len() - j,
    {
        if lower_code_of(v[j]) != w[j - i] as u32 {
            assert(v@[i + (j - i)] == v@[j as int]);
            return false;
        }
        j = j + 1;
    }
    true
}

/// `is_exponent_at(v@, i)`.
fn exponent_at(v: &Vec<char>, i: usize) -> (r: bool)
    requires
        i <= v@.len(),
    ensures
        r == is_exponent_at(v@, i as int),
{
    let n = v.len();
    if i == n {
        return true;
    }
    if lower_code_of(v[i]) != 'e' as u32 {
        return false;
    }
    let j: usize = if i + 1 < n && (v[i + 1] == '+' || v[i + 1] == '-') {
        i + 2
    } else {
        i + 1
    };
    j < n && digit_run_from(v, j) == n
}

/// `is_decimal_at(v@, i)`.
fn decimal_at(v: &Vec<char>, i: usize) -> (r: bool)
    requires
        i <= v@.len(),
    ensures
        r == is_decimal_at(v@, i as int),
{
    let a = digit_run_from(v, i);
    if a < v.len() && v[a] == '.' {
        let b = digit_run_from(v, a + 1);
        (a > i || b > a + 1) && exponent_at(v, b)
    } else {
        a > i && exponent_at(v, a)
    }
}

/// Whether `v` reads as an `f64`, by the grammar of `f64`'s `FromStr`.
pub fn float_text(v: &Vec<char>) -> (r: bool)
    ensures
        r == is_float_text(v@),
{
    let i: usize = if v.len() > 0 && (v[0] == '+' || v[0] == '-') {
        1
    } else {
        0
    };
    let inf = ['i', 'n', 'f'];
    let infinity = ['i', 'n', 'f', 'i', 'n', 'i', 't', 'y'];
    let nan = ['n', 'a', 'n'];
    assert(inf@ =~= seq!['i', 'n', 'f']);
    assert(infinity@ =~= seq!['i', 'n', 'f', 'i', 'n', 'i', 't', 'y']);
    assert(nan@ =~= seq!['n', 'a', 'n']);
    word_at(v, i, &inf) || word_at(v, i, &infinity) || word_at(v, i, &nan) || decimal_at(v, i)
}

/// The node for a scalar text, by the rules of `classify`.
pub fn classify_chars(v: &Vec<char>) -> (r: Node)
    ensures
        r.tree() == classify(v@),
{
    let null = ['n', 'u', 'l', 'l'];
    let tilde = ['~'];
    let yes = ['t', 'r', 'u', 'e'];
    let no = ['f', 'a', 'l', 's', 'e'];
    assert(null@ =~= seq!['n', 'u', 'l', 'l']);
    assert(tilde@ =~= seq!['~']);
    assert(yes@ =~= seq!['t', 'r', 'u', 'e']);
    assert(no@ =~= seq!['f', 'a', 'l', 's', 'e']);
    if same_chars(v, &null) || same_chars(v, &tilde) {
        Node::Null
    } else if same_chars(v, &yes) {
        Node::Boolean(true)
    } else if same_chars(v, &no) {
        Node::Boolean(false)
    } else {
        match parse_i64(v) {
            Some(i) => Node::Number(Numeric::Integer(i)),
            None => {
                let text = string_from_chars(v.as_slice());
                if float_text(v) {
                    Node::Number(Numeric::Float(text))
                } else {
                    Node::Str(text)
                }
            },
        }
    }
}

} // verus!
