//! Character-level helpers shared by the compiler and the file-name helpers:
//! Unicode whitespace, trimming, splitting, integer parsing and decimal printing,
//! each stated over `Seq<char>` and implemented over `Vec<char>`.
use vstd::prelude::*;

verus! {

// ---------------------------------------------------------------------------
// Specifications
// ---------------------------------------------------------------------------

/// The Unicode `White_Space` property, which `char::is_whitespace` and `str::trim` use.
pub open spec fn is_ws(c: char) -> bool {
    let u = c as u32;
    (0x09 <= u && u <= 0x0D) || u == 0x20 || u == 0x85 || u == 0xA0 || u == 0x1680 || (0x2000
        <= u && u <= 0x200A) || u == 0x2028 || u == 0x2029 || u == 0x202F || u == 0x205F || u
        == 0x3000
}

/// `s` without its leading whitespace.
pub open spec fn trim_start(s: Seq<char>) -> Seq<char>
    decreases s.len(),
{
    if s.len() > 0 && is_ws(s[0]) {
        trim_start(s.drop_first())
    } else {
        s
    }
}

/// `s` without its trailing whitespace.
pub open spec fn trim_end(s: Seq<char>) -> Seq<char>
    decreases s.len(),
{
    if s.len() > 0 && is_ws(s.last()) {
        trim_end(s.drop_last())
    } else {
        s
    }
}

/// `s` without leading and trailing whitespace (`str::trim`).
pub open spec fn trim(s: Seq<char>) -> Seq<char> {
    trim_end(trim_start(s))
}

/// `s` with every whitespace character removed (`String::retain(|c| !c.is_whitespace())`).
pub open spec fn strip_ws(s: Seq<char>) -> Seq<char>
    decreases s.len(),
{
    if s.len() == 0 {
        s
    } else if is_ws(s.last()) {
        strip_ws(s.drop_last())
    } else {
        strip_ws(s.drop_last()).push(s.last())
    }
}

/// Number of bytes of the UTF-8 encoding of `c` (`char::len_utf8`).
pub open spec fn utf8_width(c: char) -> nat {
    let u = c as u32;
    if u < 0x80 {
        1
    } else if u < 0x800 {
        2
    } else if u < 0x10000 {
        3
    } else {
        4
    }
}

/// Number of bytes of the UTF-8 encoding of `s` (`str::len`).
pub open spec fn utf8_len(s: Seq<char>) -> nat
    decreases s.len(),
{
    if s.len() == 0 {
        0
    } else {
        utf8_len(s.drop_last()) + utf8_width(s.last())
    }
}

/// Index of the first occurrence of `x` in `s`, or `s.len()` when there is none.
pub open spec fn first_index<A>(s: Seq<A>, x: A) -> int
    decreases s.len(),
{
    if s.len() == 0 {
        0
    } else if s[0] == x {
        0
    } else {
        1 + first_index(s.drop_first(), x)
    }
}

/// Index of the last occurrence of `x` in `s`, or -1 when there is none.
pub open spec fn last_index<A>(s: Seq<A>, x: A) -> int
    decreases s.len(),
{
    if s.len() == 0 {
        -1
    } else if s.last() == x {
        s.len() - 1
    } else {
        last_index(s.drop_last(), x)
    }
}

/// The pieces of `s` between occurrences of `sep` (`str::split`); there is always at least one.
pub open spec fn split_pieces(s: Seq<char>, sep: char) -> Seq<Seq<char>>
    decreases s.len(),
{
    if s.len() == 0 {
        seq![Seq::<char>::empty()]
    } else {
        let p = split_pieces(s.drop_last(), sep);
        if s.last() == sep {
            p.push(Seq::<char>::empty())
        } else {
            p.update(p.len() - 1, p.last().push(s.last()))
        }
    }
}

/// The maximal runs of characters other than `' '` in `s`, in order.
pub open spec fn words(s: Seq<char>) -> Seq<Seq<char>>
    decreases s.len(),
{
    if s.len() == 0 {
        Seq::<Seq<char>>::empty()
    } else {
        let w = words(s.drop_last());
        if s.last() == ' ' {
            w
        } else if s.len() >= 2 && s[s.len() - 2] != ' ' {
            w.update(w.len() - 1, w.last().push(s.last()))
        } else {
            w.push(seq![s.last()])
        }
    }
}

/// Whether `c` is one of the ASCII digits.
pub open spec fn is_digit(c: char) -> bool {
    '0' <= c && c <= '9'
}

/// Whether `s` is made of ASCII digits only.
pub open spec fn all_digits(s: Seq<char>) -> bool {
    forall|i: int| 0 <= i < s.len() ==> is_digit(#[trigger] s[i])
}

/// The number written by the ASCII digits `s` in base ten.
pub open spec fn digits_value(s: Seq<char>) -> nat
    decreases s.len(),
{
    if s.len() == 0 {
        0
    } else {
        digits_value(s.drop_last()) * 10 + ((s.last() as u32) - ('0' as u32)) as nat
    }
}

/// What `<i32 as FromStr>::from_str` returns: an optional sign, then one or more
/// ASCII digits, whose value fits in `i32`.
pub open spec fn parse_i32(s: Seq<char>) -> Option<i32> {
    if s.len() == 0 {
        None
    } else {
        let neg = s[0] == '-';
        let body = if s[0] == '-' || s[0] == '+' {
            s.drop_first()
        } else {
            s
        };
        let v: int = if neg {
            -(digits_value(body) as int)
        } else {
            digits_value(body) as int
        };
        if body.len() == 0 || !all_digits(body) {
            None
        } else if v < i32::MIN || v > i32::MAX {
            None
        } else {
            Some(v as i32)
        }
    }
}

/// The ASCII digit for `d < 10`.
pub open spec fn digit_char(d: nat) -> char {
    (('0' as u32) + d) as char
}

/// The decimal representation of `n`, without leading zeros.
pub open spec fn decimal(n: nat) -> Seq<char>
    decreases n,
{
    if n < 10 {
        seq![digit_char(n)]
    } else {
        decimal(n / 10).push(digit_char(n % 10))
    }
}

// ---------------------------------------------------------------------------
// Lemmas
// ---------------------------------------------------------------------------

/// `first_index` is the position of the first occurrence, or the length.
pub proof fn lemma_first_index<A>(s: Seq<A>, x: A)
    ensures
        0 <= first_index(s, x) <= s.len(),
        forall|j: int| 0 <= j < first_index(s, x) ==> s[j] != x,
        first_index(s, x) < s.len() ==> s[first_index(s, x)] == x,
    decreases s.len(),
{
    if s.len() > 0 && s[0] != x {
        lemma_first_index(s.drop_first(), x);
        assert forall|j: int| 0 <= j < first_index(s, x) implies s[j] != x by {
            if j > 0 {
                assert(s[j] == s.drop_first()[j - 1]);
            }
        }
    }
}

/// Any index before which `x` does not occur and at which it does (or the end) is `first_index`.
pub proof fn lemma_first_index_at<A>(s: Seq<A>, x: A, i: int)
    requires
        0 <= i <= s.len(),
        forall|j: int| 0 <= j < i ==> s[j] != x,
        i < s.len() ==> s[i] == x,
    ensures
        first_index(s, x) == i,
{
    lemma_first_index(s, x);
    let r = first_index(s, x);
    if r < i {
        assert(s[r] == x);
    } else if i < r {
        assert(s[i] != x);
    }
}

/// Trimming the start drops exactly the leading whitespace.
pub proof fn lemma_trim_start_skip(s: Seq<char>, k: int)
    requires
        0 <= k <= s.len(),
        forall|j: int| 0 <= j < k ==> is_ws(#[trigger] s[j]),
        k == s.len() || !is_ws(s[k]),
    ensures
        trim_start(s) == s.skip(k),
    decreases k,
{
    if k == 0 {
        assert(s.skip(0) =~= s);
    } else {
        let t = s.drop_first();
        assert forall|j: int| 0 <= j < k - 1 implies is_ws(#[trigger] t[j]) by {
            assert(t[j] == s[j + 1]);
        }
        lemma_trim_start_skip(t, k - 1);
        assert(t.skip(k - 1) =~= s.skip(k));
    }
}

/// Trimming the end drops exactly the trailing whitespace.
pub proof fn lemma_trim_end_take(s: Seq<char>, k: int)
    requires
        0 <= k <= s.len(),
        forall|j: int| k <= j < s.len() ==> is_ws(#[trigger] s[j]),
        k == 0 || !is_ws(s[k - 1]),
    ensures
        trim_end(s) == s.take(k),
    decreases s.len() - k,
{
    if k == s.len() {
        assert(s.take(k) =~= s);
        if s.len() > 0 {
            assert(s.last() == s[k - 1]);
        }
    } else {
        let t = s.drop_last();
        assert(is_ws(s.last()));
        assert forall|j: int| k <= j < t.len() implies is_ws(#[trigger] t[j]) by {
            assert(t[j] == s[j]);
        }
        if k > 0 {
            assert(t[k - 1] == s[k - 1]);
        }
        lemma_trim_end_take(t, k);
        assert(t.take(k) =~= s.take(k));
    }
}

/// A string ending with a character other than `' '` has a last word.
pub proof fn lemma_words_nonempty(s: Seq<char>)
    requires
        s.len() > 0,
        s.last() != ' ',
    ensures
        words(s).len() > 0,
    decreases s.len(),
{
    if s.len() >= 2 && s[s.len() - 2] != ' ' {
        lemma_words_nonempty(s.drop_last());
    }
}

/// Extending a digit string never makes its value smaller.
pub proof fn lemma_digits_value_grows(s: Seq<char>, k: int)
    requires
        0 <= k <= s.len(),
        all_digits(s),
    ensures
        digits_value(s.take(k)) <= digits_value(s),
    decreases s.len() - k,
{
    if k < s.len() {
        let t = s.drop_last();
        assert(t.take(k) =~= s.take(k));
        assert forall|i: int| 0 <= i < t.len() implies is_digit(#[trigger] t[i]) by {
            assert(t[i] == s[i]);
        }
        lemma_digits_value_grows(t, k);
    } else {
        assert(s.take(k) =~= s);
    }
}

// ---------------------------------------------------------------------------
// Executable helpers
// ---------------------------------------------------------------------------

/// The characters of `s`, in order.
pub fn chars_of(s: &str) -> (v: Vec<char>)
    ensures
        v@ == s@,
{
    let mut v: Vec<char> = Vec::new();
    for c in it: s.chars()
        invariant
            it.seq() == s@,
            v@ == it.seq().take(it.index() as int),
    {
        v.push(c);
    }
    v
}

/// A `String` whose characters are `v[lo..hi]`.
pub fn string_of(v: &[char], lo: usize, hi: usize) -> (s: String)
    requires
        lo <= hi <= v@.len(),
    ensures
        s@ == v@.subrange(lo as int, hi as int),
{
    let mut s = String::new();
    let mut i: usize = lo;
    while i < hi
        invariant
            lo <= i <= hi <= v@.len(),
            s@ == v@.subrange(lo as int, i as int),
        decreases hi - i,
    {
        push_char(&mut s, v[i]);
        i = i + 1;
        assert(v@.subrange(lo as int, i as int) =~= v@.subrange(lo as int, i - 1).push(v@[i - 1]));
    }
    s
}

/// A copy of `v[lo..hi]`.
pub fn sub_vec(v: &[char], lo: usize, hi: usize) -> (r: Vec<char>)
    requires
        lo <= hi <= v@.len(),
    ensures
        r@ == v@.subrange(lo as int, hi as int),
{
    let mut r: Vec<char> = Vec::new();
    let mut i: usize = lo;
    while i < hi
        invariant
            lo <= i <= hi <= v@.len(),
            r@ == v@.subrange(lo as int, i as int),
        decreases hi - i,
    {
        r.push(v[i]);
        i = i + 1;
        assert(v@.subrange(lo as int, i as int) =~= v@.subrange(lo as int, i - 1).push(v@[i - 1]));
    }
    r
}

/// Appends one character to a string.
/// Trusted: `String::push`, which appends the given `char` to the end of the string.
#[verifier::external_body]
pub(crate) fn push_char(s: &mut String, c: char)
    ensures
        final(s)@ == old(s)@.push(c),
{
    s.push(c);
}

/// Whether `c` is whitespace (`char::is_whitespace`).
pub fn is_whitespace(c: char) -> (b: bool)
    ensures
        b == is_ws(c),
{
    let u = c as u32;
    (0x09 <= u && u <= 0x0D) || u == 0x20 || u == 0x85 || u == 0xA0 || u == 0x1680 || (0x2000
        <= u && u <= 0x200A) || u == 0x2028 || u == 0x2029 || u == 0x202F || u == 0x205F || u
        == 0x3000
}

/// Bounds of `v[lo..hi]` once trimmed: `v[a..b]` is `trim(v[lo..hi])`.
pub fn trim_bounds(v: &[char], lo: usize, hi: usize) -> (r: (usize, usize))
    requires
        lo <= hi <= v@.len(),
    ensures
        lo <= r.0 <= r.1 <= hi,
        v@.subrange(r.0 as int, r.1 as int) == trim(v@.subrange(lo as int, hi as int)),
{
    let ghost s = v@.subrange(lo as int, hi as int);
    let mut a = lo;
    while a < hi && is_whitespace(v[a])
        invariant
            lo <= a <= hi <= v@.len(),
            s == v@.subrange(lo as int, hi as int),
            forall|j: int| 0 <= j < a - lo ==> is_ws(#[trigger] s[j]),
        decreases hi - a,
    {
        a = a + 1;
    }
    proof {
        lemma_trim_start_skip(s, a - lo);
    }
    let ghost t = s.skip(a - lo);
    assert(t =~= v@.subrange(a as int, hi as int));
    let mut b = hi;
    while b > a && is_whitespace(v[b - 1])
        invariant
            lo <= a <= b <= hi <= v@.len(),
            t == v@.subrange(a as int, hi as int),
            forall|j: int| b - a <= j < t.len() ==> is_ws(#[trigger] t[j]),
        decreases b - a,
    {
        b = b - 1;
    }
    proof {
        lemma_trim_end_take(t, b - a);
    }
    assert(t.take(b - a) =~= v@.subrange(a as int, b as int));
    (a, b)
}

/// Index of the first `c` in `v[lo..hi]`, relative to `lo`, or `hi - lo`.
pub fn find_char(v: &[char], lo: usize, hi: usize, c: char) -> (r: usize)
    requires
        lo <= hi <= v@.len(),
    ensures
        r == first_index(v@.subrange(lo as int, hi as int), c),
        r <= hi - lo,
{
    let ghost s = v@.subrange(lo as int, hi as int);
    let mut i = lo;
    while i < hi && v[i] != c
        invariant
            lo <= i <= hi <= v@.len(),
            s == v@.subrange(lo as int, hi as int),
            forall|j: int| 0 <= j < i - lo ==> s[j] != c,
        decreases hi - i,
    {
        i = i + 1;
    }
    proof {
        lemma_first_index_at(s, c, i - lo);
    }
    i - lo
}

/// Index of the last `c` in `v`, or `None`.
pub fn find_last_char(v: &[char], c: char) -> (r: Option<usize>)
    ensures
        match r {
            Some(i) => i < v@.len() && i == last_index(v@, c),
            None => last_index(v@, c) == -1,
        },
{
    let mut i = v.len();
    assert(v@.take(i as int) =~= v@);
    while i > 0 && v[i - 1] != c
        invariant
            i <= v@.len(),
            last_index(v@, c) == last_index(v@.take(i as int), c),
        decreases i,
    {
        let ghost t = v@.take(i as int);
        assert(t.drop_last() =~= v@.take(i - 1));
        i = i - 1;
    }
    if i == 0 {
        assert(v@.take(0) =~= Seq::<char>::empty());
        None
    } else {
        assert(v@.take(i as int).last() == v@[i - 1]);
        Some(i - 1)
    }
}

/// Whether `a` and `b` hold the same characters.
pub fn chars_eq(a: &[char], b: &[char]) -> (r: bool)
    ensures
        r == (a@ == b@),
{
    if a.len() != b.len() {
        return false;
    }
    let mut i: usize = 0;
    while i < a.len()
        invariant
            a@.len() == b@.len(),
            i <= a@.len(),
            forall|j: int| 0 <= j < i ==> a@[j] == b@[j],
        decreases a@.len() - i,
    {
        if a[i] != b[i] {
            return false;
        }
        i = i + 1;
    }
    assert(a@ =~= b@);
    true
}

/// Position of the first element of `list` equal to `x`, if any.
pub fn position_of(list: &Vec<Vec<char>>, x: &[char]) -> (r: Option<usize>)
    ensures
        match r {
            Some(i) => i < list@.len() && list@[i as int]@ == x@ && first_index(
                list@.map_values(|e: Vec<char>| e@),
                x@,
            ) == i,
            None => !list@.map_values(|e: Vec<char>| e@).contains(x@),
        },
{
    let ghost m = list@.map_values(|e: Vec<char>| e@);
    let mut i: usize = 0;
    while i < list.len()
        invariant
            i <= list@.len(),
            m == list@.map_values(|e: Vec<char>| e@),
            forall|j: int| 0 <= j < i ==> m[j] != x@,
        decreases list@.len() - i,
    {
        if chars_eq(list[i].as_slice(), x) {
            proof {
                lemma_first_index_at(m, x@, i as int);
            }
            return Some(i);
        }
        i = i + 1;
    }
    None
}

/// `strip_ws(v[lo..hi])`.
pub fn strip_whitespace(v: &[char], lo: usize, hi: usize) -> (r: Vec<char>)
    requires
        lo <= hi <= v@.len(),
    ensures
        r@ == strip_ws(v@.subrange(lo as int, hi as int)),
{
    let mut r: Vec<char> = Vec::new();
    let mut i = lo;
    while i < hi
        invariant
            lo <= i <= hi <= v@.len(),
            r@ == strip_ws(v@.subrange(lo as int, i as int)),
        decreases hi - i,
    {
        let c = v[i];
        assert(v@.subrange(lo as int, i + 1).drop_last() =~= v@.subrange(lo as int, i as int));
        if !is_whitespace(c) {
            r.push(c);
        }
        i = i + 1;
    }
    r
}

/// Whether the UTF-8 encoding of `v` is longer than `n` bytes.
pub fn utf8_len_exceeds(v: &[char], n: usize) -> (r: bool)
    ensures
        r == (utf8_len(v@) > n),
{
    let mut total: usize = 0;
    let mut i: usize = 0;
    while i < v.len()
        invariant
            i <= v@.len(),
            total == utf8_len(v@.take(i as int)),
            total <= n,
        decreases v@.len() - i,
    {
        let u = v[i] as u32;
        let w: usize = if u < 0x80 {
            1
        } else if u < 0x800 {
            2
        } else if u < 0x10000 {
            3
        } else {
            4
        };
        assert(v@.take(i + 1).drop_last() =~= v@.take(i as int));
        assert(w == utf8_width(v@[i as int]));
        if w > n - total {
            proof {
                lemma_utf8_len_grows(v@, i + 1);
            }
            return true;
        }
        total = total + w;
        i = i + 1;
    }
    assert(v@.take(v@.len() as int) =~= v@);
    false
}

/// A prefix is never longer in UTF-8 than the whole.
pub proof fn lemma_utf8_len_grows(s: Seq<char>, k: int)
    requires
        0 <= k <= s.len(),
    ensures
        utf8_len(s.take(k)) <= utf8_len(s),
    decreases s.len() - k,
{
    if k < s.len() {
        let t = s.drop_last();
        assert(t.take(k) =~= s.take(k));
        lemma_utf8_len_grows(t, k);
    } else {
        assert(s.take(k) =~= s);
    }
}

/// The words of `v[lo..hi]`, split on `' '`.
pub fn split_words(v: &[char], lo: usize, hi: usize) -> (r: Vec<Vec<char>>)
    requires
        lo <= hi <= v@.len(),
    ensures
        r@.map_values(|w: Vec<char>| w@) == words(v@.subrange(lo as int, hi as int)),
{
    let mut r: Vec<Vec<char>> = Vec::new();
    let mut i = lo;
    while i < hi
        invariant
            lo <= i <= hi <= v@.len(),
            r@.map_values(|w: Vec<char>| w@) == words(v@.subrange(lo as int, i as int)),
        decreases hi - i,
    {
        let ghost prev = v@.subrange(lo as int, i as int);
        let ghost cur = v@.subrange(lo as int, i + 1);
        assert(cur.drop_last() =~= prev);
        let c = v[i];
        if c != ' ' {
            if i > lo && v[i - 1] != ' ' {
                proof {
                    assert(prev.last() == v@[i - 1]);
                    lemma_words_nonempty(prev);
                }
                let last = r.len() - 1;
                let mut w = r.remove(last);
                w.push(c);
                r.push(w);
                assert(r@.map_values(|w: Vec<char>| w@) =~= words(cur));
            } else {
                let mut w: Vec<char> = Vec::new();
                w.push(c);
                r.push(w);
                assert(w@ =~= seq![c]);
                assert(r@.map_values(|w: Vec<char>| w@) =~= words(cur));
            }
        }
        i = i + 1;
    }
    r
}

/// `parse_i32(v)`: the value of `v` as an `i32` written in decimal, if it is one.
pub fn parse_decimal_i32(v: &[char]) -> (r: Option<i32>)
    ensures
        r == parse_i32(v@),
{
    if v.len() == 0 {
        return None;
    }
    let neg = v[0] == '-';
    let start: usize = if v[0] == '-' || v[0] == '+' {
        1
    } else {
        0
    };
    let ghost body = if v@[0] == '-' || v@[0] == '+' {
        v@.drop_first()
    } else {
        v@
    };
    assert(body =~= v@.skip(start as int));
    if start == v.len() {
        return None;
    }
    let mut acc: i64 = 0;
    let mut i = start;
    while i < v.len()
        invariant
            start <= i <= v@.len(),
            body == v@.skip(start as int),
            v@.len() > 0,
            body == (if v@[0] == '-' || v@[0] == '+' {
                v@.drop_first()
            } else {
                v@
            }),
            neg == (v@[0] == '-'),
            0 <= acc <= 0x8000_0000,
            all_digits(body.take(i - start)),
            acc == digits_value(body.take(i - start)),
        decreases v@.len() - i,
    {
        let c = v[i];
        let ghost k = i - start;
        assert(body[k] == c);
        if !('0' <= c && c <= '9') {
            assert(!is_digit(body[k]));
            assert(!all_digits(body));
            return None;
        }
        assert(body.take(k + 1).drop_last() =~= body.take(k));
        let d = (c as u32 - '0' as u32) as i64;
        let next = acc * 10 + d;
        assert(body.take(k + 1).last() == c);
        assert(next == digits_value(body.take(k + 1)));
        assert(all_digits(body.take(k + 1))) by {
            assert forall|j: int| 0 <= j < k + 1 implies is_digit(#[trigger] body.take(k + 1)[j]) by {
                if j < k {
                    assert(body.take(k + 1)[j] == body.take(k)[j]);
                }
            }
        }
        if next > 0x8000_0000 {
            proof {
                if all_digits(body) {
                    lemma_digits_value_grows(body, k + 1);
                }
            }
            return None;
        }
        acc = next;
        i = i + 1;
    }
    assert(body.take(body.len() as int) =~= body);
    if neg {
        Some((-acc) as i32)
    } else if acc > 0x7fff_ffff {
        None
    } else {
        Some(acc as i32)
    }
}

/// Appends the decimal representation of `n` to `s`.
pub fn push_decimal(s: &mut String, n: u64)
    ensures
        final(s)@ == old(s)@ + decimal(n as nat),
    decreases n,
{
    if n >= 10 {
        push_decimal(s, n / 10);
    }
    let d = (n % 10) as u32;
    let c = char_from_digit(d);
    push_char(s, c);
    assert(decimal(n as nat) == if n < 10 { seq![digit_char(n as nat)] } else { decimal((n / 10) as nat).push(digit_char((n % 10) as nat)) });
    if n < 10 {
        assert(old(s)@ + decimal(n as nat) =~= old(s)@.push(c));
    } else {
        assert(old(s)@ + decimal(n as nat) =~= (old(s)@ + decimal((n / 10) as nat)).push(c));
    }
}

/// The ASCII digit `d`.
fn char_from_digit(d: u32) -> (c: char)
    requires
        d < 10,
    ensures
        c == digit_char(d as nat),
{
    match d {
        0 => '0',
        1 => '1',
        2 => '2',
        3 => '3',
        4 => '4',
        5 => '5',
        6 => '6',
        7 => '7',
        8 => '8',
        _ => '9',
    }
}

} // verus!
