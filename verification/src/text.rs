//! Text handling on character sequences: splitting, joining, trimming,
//! ordering and integer parsing.
use vstd::prelude::*;
use vstd::string::*;

verus! {

/// `String::push` appends one character.
pub assume_specification[ String::push ](s: &mut String, ch: char)
    ensures
        final(s)@ == old(s)@.push(ch),
;

/// The characters of a string, in order.
pub fn chars_of(s: &str) -> (v: Vec<char>)
    ensures
        v@ == s@,
{
    let n = s.unicode_len();
    let mut v: Vec<char> = Vec::new();
    let mut i: usize = 0;
    while i < n
        invariant
            n == s@.len(),
            i <= n,
            v@ == s@.take(i as int),
        decreases n - i,
    {
        let c = s.get_char(i);
        v.push(c);
        assert(s@.take(i + 1) =~= s@.take(i as int).push(c));
        i = i + 1;
    }
    assert(s@.take(n as int) =~= s@);
    v
}

/// A string made of the given characters.
pub fn string_of(v: &Vec<char>) -> (s: String)
    ensures
        s@ == v@,
{
    let mut s = String::new();
    let mut i: usize = 0;
    while i < v.len()
        invariant
            i <= v.len(),
            s@ == v@.take(i as int),
        decreases v.len() - i,
    {
        s.push(v[i]);
        assert(v@.take(i + 1) =~= v@.take(i as int).push(v@[i as int]));
        i = i + 1;
    }
    assert(v@.take(v.len() as int) =~= v@);
    s
}

/// The Unicode `White_Space` property, the definition of whitespace that
/// `str::trim` and `char::is_whitespace` use.
pub open spec fn is_white_space(c: char) -> bool {
    let u = c as u32;
    (0x09 <= u <= 0x0D) || u == 0x20 || u == 0x85 || u == 0xA0 || u == 0x1680 || (0x2000 <= u
        <= 0x200A) || u == 0x2028 || u == 0x2029 || u == 0x202F || u == 0x205F || u == 0x3000
}

pub fn char_is_white_space(c: char) -> (b: bool)
    ensures
        b == is_white_space(c),
{
    let u = c as u32;
    (0x09 <= u && u <= 0x0D) || u == 0x20 || u == 0x85 || u == 0xA0 || u == 0x1680 || (0x2000 <= u
        && u <= 0x200A) || u == 0x2028 || u == 0x2029 || u == 0x202F || u == 0x205F || u == 0x3000
}

/// The text without its leading whitespace.
pub open spec fn trim_start(s: Seq<char>) -> Seq<char>
    decreases s.len(),
{
    if s.len() > 0 && is_white_space(s[0]) {
        trim_start(s.drop_first())
    } else {
        s
    }
}

/// The text without its trailing whitespace.
pub open spec fn trim_end(s: Seq<char>) -> Seq<char>
    decreases s.len(),
{
    if s.len() > 0 && is_white_space(s.last()) {
        trim_end(s.drop_last())
    } else {
        s
    }
}

/// The text without leading and trailing whitespace, as `str::trim` gives it.
pub open spec fn trim(s: Seq<char>) -> Seq<char> {
    trim_end(trim_start(s))
}

proof fn lemma_trim_start_skip(s: Seq<char>, a: int)
    requires
        0 <= a <= s.len(),
        forall|j: int| 0 <= j < a ==> is_white_space(#[trigger] s[j]),
        a == s.len() || !is_white_space(s[a]),
    ensures
        trim_start(s) == s.skip(a),
    decreases a,
{
    if a == 0 {
        assert(s.skip(0) =~= s);
    } else {
        let d = s.drop_first();
        assert forall|j: int| 0 <= j < a - 1 implies is_white_space(#[trigger] d[j]) by {
            assert(d[j] == s[j + 1]);
        }
        if a < s.len() {
            assert(d[a - 1] == s[a]);
        }
        lemma_trim_start_skip(d, a - 1);
        assert(d.skip(a - 1) =~= s.skip(a));
    }
}

proof fn lemma_trim_end_take(s: Seq<char>, b: int)
    requires
        0 <= b <= s.len(),
        forall|j: int| b <= j < s.len() ==> is_white_space(#[trigger] s[j]),
        b == 0 || !is_white_space(s[b - 1]),
    ensures
        trim_end(s) == s.take(b),
    decreases s.len() - b,
{
    if b == s.len() {
        assert(s.take(b) =~= s);
    } else {
        let d = s.drop_last();
        assert forall|j: int| b <= j < d.len() implies is_white_space(#[trigger] d[j]) by {
            assert(d[j] == s[j]);
        }
        if b > 0 {
            assert(d[b - 1] == s[b - 1]);
        }
        lemma_trim_end_take(d, b);
        assert(d.take(b) =~= s.take(b));
    }
}

/// The characters without leading and trailing whitespace.
pub fn trim_chars(s: &Vec<char>) -> (r: Vec<char>)
    ensures
        r@ == trim(s@),
{
    let n = s.len();
    let mut a: usize = 0;
    while a < n && char_is_white_space(s[a])
        invariant
            a <= n == s.len(),
            forall|j: int| 0 <= j < a ==> is_white_space(#[trigger] s@[j]),
        decreases n - a,
    {
        a = a + 1;
    }
    proof {
        lemma_trim_start_skip(s@, a as int);
    }
    let mut b: usize = n;
    while b > a && char_is_white_space(s[b - 1])
        invariant
            a <= b <= n == s.len(),
            forall|j: int| b <= j < n ==> is_white_space(#[trigger] s@[j]),
        decreases b,
    {
        b = b - 1;
    }
    let ghost t = s@.skip(a as int);
    proof {
        assert forall|j: int| b - a <= j < t.len() implies is_white_space(#[trigger] t[j]) by {
            assert(t[j] == s@[j + a]);
        }
        if b > a {
            assert(t[b - a - 1] == s@[b - 1]);
        }
        lemma_trim_end_take(t, b - a);
    }
    let mut r: Vec<char> = Vec::new();
    let mut i: usize = a;
    while i < b
        invariant
            a <= i <= b <= n == s.len(),
            r@ == s@.subrange(a as int, i as int),
        decreases b - i,
    {
        r.push(s[i]);
        assert(s@.subrange(a as int, i + 1) =~= s@.subrange(a as int, i as int).push(s@[i as int]));
        i = i + 1;
    }
    assert(r@ =~= t.take(b - a));
    r
}

/// Whether `sep` occurs in `s` at position `i`.
pub open spec fn matches_at(s: Seq<char>, sep: Seq<char>, i: int) -> bool {
    0 <= i && i + sep.len() <= s.len() && s.subrange(i, i + sep.len()) == sep
}

/// The pieces of `s` between the occurrences of `sep`, found from left to
/// right without overlap, as `str::split` with a string pattern gives them.
pub open spec fn split(s: Seq<char>, sep: Seq<char>) -> Seq<Seq<char>>
    decreases s.len(),
{
    if sep.len() == 0 || s.len() == 0 {
        seq![s]
    } else if matches_at(s, sep, 0) {
        seq![Seq::<char>::empty()] + split(s.skip(sep.len() as int), sep)
    } else {
        let r = split(s.drop_first(), sep);
        r.update(0, seq![s[0]] + r[0])
    }
}

/// `split` with `cur` in front of its first piece.
pub open spec fn split_after(cur: Seq<char>, s: Seq<char>, sep: Seq<char>) -> Seq<Seq<char>> {
    let r = split(s, sep);
    r.update(0, cur + r[0])
}

pub proof fn lemma_split_nonempty(s: Seq<char>, sep: Seq<char>)
    ensures
        split(s, sep).len() >= 1,
    decreases s.len(),
{
    if sep.len() == 0 || s.len() == 0 {
    } else if matches_at(s, sep, 0) {
        lemma_split_nonempty(s.skip(sep.len() as int), sep);
    } else {
        lemma_split_nonempty(s.drop_first(), sep);
    }
}

/// Split `s` on every occurrence of `sep`.
pub fn split_chars(s: &Vec<char>, sep: &Vec<char>) -> (r: Vec<Vec<char>>)
    requires
        sep.len() > 0,
    ensures
        r@.map_values(|p: Vec<char>| p@) == split(s@, sep@),
{
    let n = s.len();
    let m = sep.len();
    let mut done: Vec<Vec<char>> = Vec::new();
    let mut cur: Vec<char> = Vec::new();
    let mut i: usize = 0;
    proof {
        assert(s@.skip(0) =~= s@);
        lemma_split_nonempty(s@, sep@);
        assert(split_after(Seq::empty(), s@, sep@) =~= split(s@, sep@));
    }
    while i < n
        invariant
            n == s.len(),
            m == sep.len() > 0,
            i <= n,
            split(s@, sep@) == done@.map_values(|p: Vec<char>| p@) + split_after(
                cur@,
                s@.skip(i as int),
                sep@,
            ),
        decreases n - i,
    {
        let ghost t = s@.skip(i as int);
        let mut is_match = m <= n - i;
        let mut k: usize = 0;
        while is_match && k < m
            invariant
                n == s.len(),
                m == sep.len(),
                k <= m,
                is_match ==> i + m <= n,
                is_match ==> forall|j: int| 0 <= j < k ==> s@[i + j] == sep@[j],
                !is_match ==> !matches_at(t, sep@, 0),
                t == s@.skip(i as int),
            decreases m - k + (if is_match { 1int } else { 0int }),
        {
            if s[i + k] != sep[k] {
                is_match = false;
                proof {
                    assert(t.subrange(0, m as int)[k as int] != sep@[k as int]);
                }
            } else {
                k = k + 1;
            }
        }
        proof {
            lemma_split_nonempty(t, sep@);
            if is_match {
                assert(t.subrange(0, m as int) =~= sep@);
            }
        }
        if is_match {
            proof {
                let rest = t.skip(m as int);
                lemma_split_nonempty(rest, sep@);
                assert(rest =~= s@.skip(i + m));
                assert(split_after(cur@, t, sep@) =~= seq![cur@] + split_after(
                    Seq::empty(),
                    rest,
                    sep@,
                ));
                assert(done@.push(cur).map_values(|p: Vec<char>| p@) =~= done@.map_values(
                    |p: Vec<char>| p@,
                ).push(cur@));
            }
            done.push(cur);
            cur = Vec::new();
            i = i + m;
        } else {
            proof {
                let rest = t.drop_first();
                lemma_split_nonempty(rest, sep@);
                assert(rest =~= s@.skip(i + 1));
                let r = split(rest, sep@);
                assert(!matches_at(t, sep@, 0));
                assert(split(t, sep@) == r.update(0, seq![t[0]] + r[0]));
                assert(cur@ + (seq![t[0]] + r[0]) =~= cur@.push(t[0]) + r[0]);
                assert(split_after(cur@, t, sep@) =~= split_after(cur@.push(t[0]), rest, sep@));
            }
            cur.push(s[i]);
            i = i + 1;
        }
    }
    proof {
        assert(s@.skip(n as int) =~= Seq::<char>::empty());
        assert(split_after(cur@, Seq::empty(), sep@) =~= seq![cur@]);
        assert(done@.push(cur).map_values(|p: Vec<char>| p@) =~= done@.map_values(
            |p: Vec<char>| p@,
        ).push(cur@));
    }
    done.push(cur);
    done
}

/// The segments joined with `.` between them.
pub open spec fn join_dotted(segs: Seq<Seq<char>>) -> Seq<char>
    decreases segs.len(),
{
    if segs.len() == 0 {
        Seq::empty()
    } else if segs.len() == 1 {
        segs[0]
    } else {
        join_dotted(segs.drop_last()) + seq!['.'] + segs.last()
    }
}

pub fn join_dotted_strings(segs: &Vec<String>) -> (r: String)
    ensures
        r@ == join_dotted(segs@.map_values(|x: String| x@)),
{
    let ghost views = segs@.map_values(|x: String| x@);
    let mut r = String::new();
    let mut i: usize = 0;
    while i < segs.len()
        invariant
            i <= segs.len(),
            views == segs@.map_values(|x: String| x@),
            r@ == join_dotted(views.take(i as int)),
        decreases segs.len() - i,
    {
        assert(views.take(i + 1).drop_last() =~= views.take(i as int));
        if i > 0 {
            r.push('.');
        }
        r.append(segs[i].as_str());
        proof {
            if i == 0 {
                assert(r@ =~= views.take(1)[0]);
            } else {
                assert(r@ =~= join_dotted(views.take(i as int)) + seq!['.'] + views[i as int]);
            }
        }
        i = i + 1;
    }
    assert(views.take(segs.len() as int) =~= views);
    r
}

/// The lower-case form of a text, as `str::to_lowercase` computes it by the
/// Unicode case mappings.
pub uninterp spec fn lowercase(s: Seq<char>) -> Seq<char>;

/// `str::to_lowercase`: the result is named `lowercase` of the input; the
/// Unicode mapping itself is not restated here.
#[verifier::external_body]
pub(crate) fn to_lowercase(s: &str) -> (r: String)
    ensures
        r@ == lowercase(s@),
{
    s.to_lowercase()
}

/// Whether `a` comes strictly before `b` in the order of `str`'s `Ord`:
/// lexicographic by code point (which is the order of the UTF-8 bytes).
pub open spec fn text_less(a: Seq<char>, b: Seq<char>) -> bool
    decreases a.len(),
{
    if a.len() == 0 {
        b.len() > 0
    } else if b.len() == 0 {
        false
    } else if a[0] != b[0] {
        (a[0] as int) < (b[0] as int)
    } else {
        text_less(a.drop_first(), b.drop_first())
    }
}

pub fn less_text(a: &str, b: &str) -> (r: bool)
    ensures
        r == text_less(a@, b@),
{
    let av = chars_of(a);
    let bv = chars_of(b);
    let mut i: usize = 0;
    assert(av@.skip(0) =~= av@);
    assert(bv@.skip(0) =~= bv@);
    while i < av.len() && i < bv.len() && av[i] == bv[i]
        invariant
            i <= av.len(),
            i <= bv.len(),
            text_less(a@, b@) == text_less(av@.skip(i as int), bv@.skip(i as int)),
            av@ == a@,
            bv@ == b@,
        decreases av.len() - i,
    {
        assert(av@.skip(i as int).drop_first() =~= av@.skip(i + 1));
        assert(bv@.skip(i as int).drop_first() =~= bv@.skip(i + 1));
        i = i + 1;
    }
    if i == av.len() {
        i < bv.len()
    } else if i == bv.len() {
        false
    } else {
        assert(av@.skip(i as int)[0] == av@[i as int]);
        assert(bv@.skip(i as int)[0] == bv@[i as int]);
        av[i] < bv[i]
    }
}

/// Whether `s` begins with `p`.
pub open spec fn has_prefix(s: Seq<char>, p: Seq<char>) -> bool {
    p.len() <= s.len() && s.take(p.len() as int) == p
}

pub fn starts_with(s: &Vec<char>, p: &Vec<char>) -> (r: bool)
    ensures
        r == has_prefix(s@, p@),
{
    if p.len() > s.len() {
        return false;
    }
    let mut i: usize = 0;
    while i < p.len()
        invariant
            p.len() <= s.len(),
            i <= p.len(),
            forall|j: int| 0 <= j < i ==> s@[j] == p@[j],
        decreases p.len() - i,
    {
        if s[i] != p[i] {
            assert(s@.take(p.len() as int)[i as int] != p@[i as int]);
            return false;
        }
        i = i + 1;
    }
    assert(s@.take(p.len() as int) =~= p@);
    true
}

pub open spec fn is_digit(c: char) -> bool {
    '0' <= c && c <= '9'
}

/// The value of a run of decimal digits.
pub open spec fn digits_value(s: Seq<char>) -> int
    decreases s.len(),
{
    if s.len() == 0 {
        0
    } else {
        digits_value(s.drop_last()) * 10 + ((s.last() as u32) - ('0' as u32))
    }
}

pub open spec fn all_digits(s: Seq<char>) -> bool {
    forall|i: int| 0 <= i < s.len() ==> is_digit(#[trigger] s[i])
}

/// The integer that a number's text denotes, when the text is an optional
/// `-` and one or more decimal digits; `None` for any other text (a fraction,
/// an exponent, or no number at all).
pub open spec fn integer_value(t: Seq<char>) -> Option<int> {
    if t.len() > 0 && t[0] == '-' {
        let d = t.drop_first();
        if d.len() > 0 && all_digits(d) {
            Some(-digits_value(d))
        } else {
            None
        }
    } else if t.len() > 0 && all_digits(t) {
        Some(digits_value(t))
    } else {
        None
    }
}

proof fn lemma_digits_value_grows(s: Seq<char>, k: int)
    requires
        all_digits(s),
        0 <= k <= s.len(),
    ensures
        0 <= digits_value(s.take(k)) <= digits_value(s),
    decreases s.len(),
{
    if k == s.len() {
        assert(s.take(k) =~= s);
        if s.len() > 0 {
            lemma_digits_value_grows(s.drop_last(), k - 1);
            assert(s.drop_last().take(k - 1) =~= s.drop_last());
            assert(is_digit(s[s.len() - 1]));
        }
    } else {
        let d = s.drop_last();
        assert(all_digits(d)) by {
            assert forall|i: int| 0 <= i < d.len() implies is_digit(#[trigger] d[i]) by {
                assert(d[i] == s[i]);
            }
        }
        lemma_digits_value_grows(d, k);
        lemma_digits_value_grows(d, d.len() as int);
        assert(d.take(k) =~= s.take(k));
        assert(is_digit(s[s.len() - 1]));
    }
}

/// The integer that `t` denotes, if it denotes one in `min..=max`.
pub fn parse_integer(t: &Vec<char>, min: i128, max: i128) -> (r: Option<i128>)
    requires
        -0x1_0000_0000_0000_0000 <= min,
        max <= 0x1_0000_0000_0000_0000,
    ensures
        r == (match integer_value(t@) {
            Some(v) => if min <= v <= max {
                Some(v as i128)
            } else {
                None
            },
            None => None,
        }),
{
    let n = t.len();
    if n == 0 {
        return None;
    }
    let negative = t[0] == '-';
    let start: usize = if negative { 1 } else { 0 };
    if start == n {
        return None;
    }
    let ghost d = t@.skip(start as int);
    proof {
        if negative {
            assert(d =~= t@.drop_first());
        } else {
            assert(d =~= t@);
        }
        assert(integer_value(t@) == if all_digits(d) {
            Some(
                if negative {
                    -digits_value(d)
                } else {
                    digits_value(d)
                },
            )
        } else {
            None::<int>
        });
    }
    let mut k: usize = start;
    while k < n
        invariant
            start <= k <= n == t.len(),
            d == t@.skip(start as int),
            forall|j: int| 0 <= j < k - start ==> is_digit(#[trigger] d[j]),
            negative == (t@[0] == '-'),
            integer_value(t@) == if all_digits(d) {
                Some(
                    if negative {
                        -digits_value(d)
                    } else {
                        digits_value(d)
                    },
                )
            } else {
                None::<int>
            },
        decreases n - k,
    {
        let c = t[k];
        assert(d[k - start] == t@[k as int]);
        if !('0' <= c && c <= '9') {
            assert(!all_digits(d));
            return None;
        }
        k = k + 1;
    }
    assert(all_digits(d));
    let mut acc: i128 = 0;
    let mut i: usize = start;
    while i < n
        invariant
            start <= i <= n == t.len(),
            d == t@.skip(start as int),
            all_digits(d),
            acc == digits_value(d.take(i - start)),
            0 <= acc <= 0x1_0000_0000_0000_0000,
            -0x1_0000_0000_0000_0000 <= min,
            max <= 0x1_0000_0000_0000_0000,
            integer_value(t@) == if all_digits(d) {
                Some(
                    if negative {
                        -digits_value(d)
                    } else {
                        digits_value(d)
                    },
                )
            } else {
                None::<int>
            },
        decreases n - i,
    {
        let c = t[i];
        proof {
            assert(d[i - start] == t@[i as int]);
            assert(is_digit(d[i - start]));
            assert(d.take(i - start + 1).drop_last() =~= d.take(i - start));
            assert(d.take(i - start + 1).last() == c);
        }
        let digit = (c as u32 - '0' as u32) as i128;
        acc = acc * 10 + digit;
        if acc > 0x1_0000_0000_0000_0000 {
            proof {
                lemma_digits_value_grows(d, i - start + 1);
            }
            return None;
        }
        i = i + 1;
    }
    assert(d.take(n - start) =~= d);
    let v: i128 = if negative { -acc } else { acc };
    if min <= v && v <= max {
        Some(v)
    } else {
        None
    }
}

/// The decimal digit character of `d`.
pub open spec fn digit_char(d: nat) -> char {
    (('0' as u32) + d) as char
}

/// The decimal text of a natural number, without leading zeros.
pub open spec fn nat_text(n: nat) -> Seq<char>
    decreases n,
{
    if n < 10 {
        seq![digit_char(n)]
    } else {
        nat_text(n / 10).push(digit_char(n % 10))
    }
}

/// The decimal text of an integer, as `i128`'s `Display` writes it.
pub open spec fn int_text(i: int) -> Seq<char> {
    if i < 0 {
        seq!['-'] + nat_text((-i) as nat)
    } else {
        nat_text(i as nat)
    }
}

fn digit_of(d: u128) -> (c: char)
    requires
        d < 10,
    ensures
        c == digit_char(d as nat),
{
    if d == 0 { '0' } else if d == 1 { '1' } else if d == 2 { '2' } else if d == 3 { '3' } else if d == 4 { '4' }
    else if d == 5 { '5' } else if d == 6 { '6' } else if d == 7 { '7' } else if d == 8 { '8' } else { '9' }
}

/// The decimal text of an integer.
pub fn integer_text(i: i128) -> (r: String)
    ensures
        r@ == int_text(i as int),
{
    let negative = i < 0;
    let mut m: u128 = if negative {
        ((-(i + 1)) as u128) + 1
    } else {
        i as u128
    };
    let ghost orig: nat = m as nat;
    assert(orig == if negative { (-(i as int)) as nat } else { i as nat });
    let mut rev: Vec<char> = Vec::new();
    while m >= 10
        invariant
            nat_text(orig) == nat_text(m as nat) + rev@.reverse(),
        decreases m,
    {
        let d = m % 10;
        let c = digit_of(d);
        let ghost before = rev@;
        rev.push(c);
        proof {
            assert(rev@.reverse() =~= seq![c] + before.reverse());
            assert(nat_text(m as nat) == nat_text((m / 10) as nat).push(c));
            assert(nat_text((m / 10) as nat).push(c) + before.reverse() =~= nat_text((m / 10) as nat) + (seq![c] + before.reverse()));
        }
        m = m / 10;
    }
    let mut out = String::new();
    if negative {
        out.push('-');
    }
    let first = digit_of(m);
    out.push(first);
    let ghost head = out@;
    let mut k = rev.len();
    while k > 0
        invariant
            k <= rev.len(),
            out@ == head + rev@.subrange(k as int, rev.len() as int).reverse(),
        decreases k,
    {
        out.push(rev[k - 1]);
        assert(rev@.subrange(k - 1, rev.len() as int).reverse() =~= rev@.subrange(k as int, rev.len() as int).reverse().push(rev@[k - 1]));
        k = k - 1;
    }
    assert(rev@.subrange(0, rev.len() as int) =~= rev@);
    assert(nat_text(m as nat) =~= seq![first]);
    proof {
        if negative {
            assert(out@ =~= seq!['-'] + (seq![first] + rev@.reverse()));
        } else {
            assert(out@ =~= seq![first] + rev@.reverse());
        }
    }
    out
}

} // verus!
