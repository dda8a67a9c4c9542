//! Text rules the wallet applies to user input and to stored strings.
//!
//! Everything here is stated over a string's characters (`s@`), or over its UTF-8 bytes where a
//! rule counts bytes.
use vstd::prelude::*;
use vstd::utf8::*;

verus! {

/// The Unicode `White_Space` characters.
pub open spec fn is_white(c: char) -> bool {
    let u = c as u32;
    ||| 0x09 <= u <= 0x0d
    ||| u == 0x20
    ||| u == 0x85
    ||| u == 0xa0
    ||| u == 0x1680
    ||| 0x2000 <= u <= 0x200a
    ||| u == 0x2028
    ||| u == 0x2029
    ||| u == 0x202f
    ||| u == 0x205f
    ||| u == 0x3000
}

/// `s` without its leading white space.
pub open spec fn trim_left(s: Seq<char>) -> Seq<char>
    decreases s.len(),
{
    if s.len() > 0 && is_white(s[0]) {
        trim_left(s.skip(1))
    } else {
        s
    }
}

/// `s` without its trailing white space.
pub open spec fn trim_right(s: Seq<char>) -> Seq<char>
    decreases s.len(),
{
    if s.len() > 0 && is_white(s.last()) {
        trim_right(s.drop_last())
    } else {
        s
    }
}

/// `s` without leading and trailing white space.
pub open spec fn trimmed(s: Seq<char>) -> Seq<char> {
    trim_right(trim_left(s))
}

/// `s` without any run of `c` at its end.
pub open spec fn without_trailing(s: Seq<char>, c: char) -> Seq<char>
    decreases s.len(),
{
    if s.len() > 0 && s.last() == c {
        without_trailing(s.drop_last(), c)
    } else {
        s
    }
}

/// A character's code with the ASCII capitals mapped onto the small letters.
pub open spec fn folded(c: char) -> u32 {
    if 'A' <= c <= 'Z' {
        (c as u32 + 32) as u32
    } else {
        c as u32
    }
}

/// Equality that disregards the case of ASCII letters.
pub open spec fn same_ignoring_case(a: Seq<char>, b: Seq<char>) -> bool {
    &&& a.len() == b.len()
    &&& forall|i: int| 0 <= i < a.len() ==> folded(#[trigger] a[i]) == folded(b[i])
}

/// `part` stands in `s` from position `k` on.
pub open spec fn is_part_at(s: Seq<char>, part: Seq<char>, k: int) -> bool {
    &&& 0 <= k <= s.len() - part.len()
    &&& s.subrange(k, k + part.len()) == part
}

/// `s` begins with `head`.
pub open spec fn begins_with(s: Seq<char>, head: Seq<char>) -> bool {
    head.len() <= s.len() && s.take(head.len() as int) == head
}

/// The decimal digit `d`.
pub open spec fn digit_char(d: int) -> char {
    if d == 0 {
        '0'
    } else if d == 1 {
        '1'
    } else if d == 2 {
        '2'
    } else if d == 3 {
        '3'
    } else if d == 4 {
        '4'
    } else if d == 5 {
        '5'
    } else if d == 6 {
        '6'
    } else if d == 7 {
        '7'
    } else if d == 8 {
        '8'
    } else {
        '9'
    }
}

/// The decimal numeral of `n`, without leading zeros.
pub open spec fn decimal(n: nat) -> Seq<char>
    decreases n,
{
    if n < 10 {
        seq![digit_char(n as int)]
    } else {
        decimal(n / 10).push(digit_char((n % 10) as int))
    }
}

/// The characters of `s`.
pub fn chars_of(s: &str) -> (chars: Vec<char>)
    ensures
        chars@ == s@,
{
    let mut chars: Vec<char> = Vec::new();
    for c in it: s.chars()
        invariant
            it.seq() == s@,
            chars@ == it.seq().take(it.index()),
    {
        chars.push(c);
        assert(it.seq().take(it.index() + 1) =~= it.seq().take(it.index()).push(c));
    }
    assert(chars@ =~= s@);
    chars
}

/// Whether two byte strings are equal.
pub fn bytes_eq(a: &[u8], b: &[u8]) -> (eq: bool)
    ensures
        eq == (a@ == b@),
{
    if a.len() != b.len() {
        return false;
    }
    let mut i: usize = 0;
    while i < a.len()
        invariant
            i <= a.len(),
            a.len() == b.len(),
            forall|j: int| 0 <= j < i ==> a@[j] == b@[j],
        decreases a.len() - i,
    {
        if a[i] != b[i] {
            return false;
        }
        i += 1;
    }
    assert(a@ =~= b@);
    true
}

/// Whether two strings are equal.
pub fn str_eq(a: &str, b: &str) -> (eq: bool)
    ensures
        eq == (a@ == b@),
{
    proof {
        encode_utf8_decode_utf8(a@);
        encode_utf8_decode_utf8(b@);
    }
    bytes_eq(a.as_bytes(), b.as_bytes())
}

/// Whether a character is white space.
pub fn char_is_white(c: char) -> (white: bool)
    ensures
        white == is_white(c),
{
    let u: u32 = c as u32;
    (0x09 <= u && u <= 0x0d) || u == 0x20 || u == 0x85 || u == 0xa0 || u == 0x1680 || (0x2000 <= u
        && u <= 0x200a) || u == 0x2028 || u == 0x2029 || u == 0x202f || u == 0x205f || u == 0x3000
}

/// A string without its leading and trailing white space.
pub fn trim(s: &str) -> (t: &str)
    ensures
        t@ == trimmed(s@),
{
    let chars = chars_of(s);
    let mut lo: usize = 0;
    assert(s@.skip(0) =~= s@);
    while lo < chars.len() && char_is_white(chars[lo])
        invariant
            lo <= chars.len(),
            chars@ == s@,
            trim_left(s@) == trim_left(s@.skip(lo as int)),
        decreases chars.len() - lo,
    {
        assert(s@.skip(lo as int).skip(1) =~= s@.skip(lo as int + 1));
        lo += 1;
    }
    assert(trim_left(s@) == s@.skip(lo as int));
    let mut hi: usize = chars.len();
    assert(s@.subrange(lo as int, hi as int) =~= s@.skip(lo as int));
    while hi > lo && char_is_white(chars[hi - 1])
        invariant
            lo <= hi <= chars.len(),
            chars@ == s@,
            trim_right(trim_left(s@)) == trim_right(s@.subrange(lo as int, hi as int)),
        decreases hi,
    {
        assert(s@.subrange(lo as int, hi as int).drop_last() =~= s@.subrange(
            lo as int,
            hi as int - 1,
        ));
        hi -= 1;
    }
    s.substring_char(lo, hi)
}

/// A string without the run of `c` at its end.
pub fn trim_end_char(s: &str, c: char) -> (t: &str)
    ensures
        t@ == without_trailing(s@, c),
{
    let chars = chars_of(s);
    let mut hi: usize = chars.len();
    assert(s@.subrange(0, hi as int) =~= s@);
    while hi > 0 && chars[hi - 1] == c
        invariant
            hi <= chars.len(),
            chars@ == s@,
            without_trailing(s@, c) == without_trailing(s@.subrange(0, hi as int), c),
        decreases hi,
    {
        assert(s@.subrange(0, hi as int).drop_last() =~= s@.subrange(0, hi as int - 1));
        hi -= 1;
    }
    s.substring_char(0, hi)
}

/// A character's code with the ASCII capitals mapped onto the small letters.
pub fn fold_char(c: char) -> (u: u32)
    ensures
        u == folded(c),
{
    let u: u32 = c as u32;
    if 'A' <= c && c <= 'Z' {
        u + 32
    } else {
        u
    }
}

/// Whether two strings are equal up to the case of ASCII letters.
pub fn eq_ignore_ascii_case(a: &str, b: &str) -> (eq: bool)
    ensures
        eq == same_ignoring_case(a@, b@),
{
    let ca = chars_of(a);
    let cb = chars_of(b);
    if ca.len() != cb.len() {
        return false;
    }
    let mut i: usize = 0;
    while i < ca.len()
        invariant
            i <= ca.len(),
            ca.len() == cb.len(),
            ca@ == a@,
            cb@ == b@,
            forall|j: int| 0 <= j < i ==> folded(#[trigger] ca@[j]) == folded(cb@[j]),
        decreases ca.len() - i,
    {
        if fold_char(ca[i]) != fold_char(cb[i]) {
            return false;
        }
        i += 1;
    }
    true
}

/// Whether `part` stands in `s` from position `k` on.
pub fn part_at(s: &Vec<char>, part: &Vec<char>, k: usize) -> (found: bool)
    requires
        k + part@.len() <= s@.len(),
    ensures
        found == is_part_at(s@, part@, k as int),
{
    let ghost window = s@.subrange(k as int, k + part@.len());
    let n: usize = s.len();
    let mut i: usize = 0;
    while i < part.len()
        invariant
            i <= part.len(),
            k + part@.len() <= n,
            n == s@.len(),
            window == s@.subrange(k as int, k + part@.len()),
            forall|j: int| 0 <= j < i ==> window[j] == part@[j],
        decreases part.len() - i,
    {
        assert(window[i as int] == s@[k + i]);
        if s[k + i] != part[i] {
            return false;
        }
        i += 1;
    }
    assert(window =~= part@);
    true
}

/// Whether `s` begins with `head`.
pub fn starts_with(s: &str, head: &str) -> (found: bool)
    ensures
        found == begins_with(s@, head@),
{
    let cs = chars_of(s);
    let ch = chars_of(head);
    if ch.len() > cs.len() {
        return false;
    }
    let found = part_at(&cs, &ch, 0);
    assert(s@.subrange(0, head@.len() as int) =~= s@.take(head@.len() as int));
    found
}

/// The longest prefix of `s` of at most `max` bytes that ends between two characters.
pub fn byte_prefix(s: &str, max: usize) -> (head: &str)
    ensures
        encode_utf8(head@).len() <= max,
        encode_utf8(head@) == encode_utf8(s@).take(encode_utf8(head@).len() as int),
        forall|k: int|
            encode_utf8(head@).len() < k <= max && k <= encode_utf8(s@).len()
                ==> !is_char_boundary(encode_utf8(s@), k),
{
    proof {
        encode_utf8_valid_utf8(s@);
        is_char_boundary_start_end_of_seq(encode_utf8(s@));
    }
    let n: usize = s.as_bytes().len();
    if n <= max {
        assert(encode_utf8(s@).take(n as int) =~= encode_utf8(s@));
        return s;
    }
    let mut k: usize = max;
    while !s.is_char_boundary(k)
        invariant
            k <= max < n,
            n == encode_utf8(s@).len(),
            is_char_boundary(encode_utf8(s@), 0),
            forall|j: int| k < j <= max ==> !is_char_boundary(encode_utf8(s@), j),
        decreases k,
    {
        k -= 1;
    }
    let head = s.split_at(k).0;
    assert(encode_utf8(head@) =~= encode_utf8(s@).take(k as int));
    head
}

/// Appends one decimal digit.
fn append_digit(out: &mut String, d: u64)
    requires
        d < 10,
    ensures
        final(out)@ == old(out)@.push(digit_char(d as int)),
{
    proof {
        reveal_strlit("0");
        reveal_strlit("1");
        reveal_strlit("2");
        reveal_strlit("3");
        reveal_strlit("4");
        reveal_strlit("5");
        reveal_strlit("6");
        reveal_strlit("7");
        reveal_strlit("8");
        reveal_strlit("9");
    }
    let text = if d == 0 {
        "0"
    } else if d == 1 {
        "1"
    } else if d == 2 {
        "2"
    } else if d == 3 {
        "3"
    } else if d == 4 {
        "4"
    } else if d == 5 {
        "5"
    } else if d == 6 {
        "6"
    } else if d == 7 {
        "7"
    } else if d == 8 {
        "8"
    } else {
        "9"
    };
    out.append(text);
    assert(out@ =~= old(out)@.push(digit_char(d as int)));
}

/// Appends the decimal numeral of `n`.
pub fn append_decimal(out: &mut String, n: u64)
    ensures
        final(out)@ == old(out)@ + decimal(n as nat),
    decreases n,
{
    if n < 10 {
        append_digit(out, n);
        assert(out@ =~= old(out)@ + decimal(n as nat));
    } else {
        append_decimal(out, n / 10);
        append_digit(out, n % 10);
        assert(out@ =~= old(out)@ + decimal(n as nat));
    }
}

// ---- What the text rules promise ----

/// White space is what Unicode lists as such.
pub proof fn law_white_space(c: char)
    ensures
        is_white(c) <==> seq![
            0x09u32, 0x0a, 0x0b, 0x0c, 0x0d, 0x20, 0x85, 0xa0, 0x1680, 0x2000, 0x2001, 0x2002,
            0x2003, 0x2004, 0x2005, 0x2006, 0x2007, 0x2008, 0x2009, 0x200a, 0x2028, 0x2029, 0x202f,
            0x205f, 0x3000,
        ].contains(c as u32),
{
    let u = c as u32;
    let all = seq![
        0x09u32, 0x0a, 0x0b, 0x0c, 0x0d, 0x20, 0x85, 0xa0, 0x1680, 0x2000, 0x2001, 0x2002, 0x2003,
        0x2004, 0x2005, 0x2006, 0x2007, 0x2008, 0x2009, 0x200a, 0x2028, 0x2029, 0x202f, 0x205f,
        0x3000,
    ];
    if is_white(c) {
        let i: int = if u <= 0x0d {
            u - 0x09
        } else if u == 0x20 {
            5
        } else if u == 0x85 {
            6
        } else if u == 0xa0 {
            7
        } else if u == 0x1680 {
            8
        } else if u <= 0x200a {
            u - 0x2000 + 9
        } else if u == 0x2028 {
            20
        } else if u == 0x2029 {
            21
        } else if u == 0x202f {
            22
        } else if u == 0x205f {
            23
        } else {
            24
        };
        assert(all[i] == u);
    }
}

proof fn lemma_trim_left(s: Seq<char>) -> (l: Seq<char>)
    ensures
        s == l + trim_left(s),
        forall|i: int| 0 <= i < l.len() ==> is_white(#[trigger] l[i]),
        trim_left(s).len() > 0 ==> !is_white(trim_left(s)[0]),
    decreases s.len(),
{
    if s.len() > 0 && is_white(s[0]) {
        let t = lemma_trim_left(s.skip(1));
        let l = seq![s[0]] + t;
        assert(s =~= l + trim_left(s)) by {
            assert(s.skip(1) == t + trim_left(s));
            assert(s =~= seq![s[0]] + s.skip(1));
        }
        l
    } else {
        assert(s =~= Seq::<char>::empty() + s);
        Seq::empty()
    }
}

proof fn lemma_trim_right(s: Seq<char>) -> (r: Seq<char>)
    ensures
        s == trim_right(s) + r,
        forall|i: int| 0 <= i < r.len() ==> is_white(#[trigger] r[i]),
        trim_right(s).len() > 0 ==> !is_white(trim_right(s).last()) && trim_right(s)[0] == s[0],
    decreases s.len(),
{
    if s.len() > 0 && is_white(s.last()) {
        let t = lemma_trim_right(s.drop_last());
        let r = t.push(s.last());
        assert(s =~= trim_right(s) + r) by {
            assert(s.drop_last() == trim_right(s) + t);
            assert(s =~= s.drop_last().push(s.last()));
        }
        r
    } else {
        assert(s =~= s + Seq::<char>::empty());
        Seq::empty()
    }
}

/// Trimming takes white space from both ends and nothing else, and leaves none there.
pub proof fn law_trimming(s: Seq<char>) -> (ends: (Seq<char>, Seq<char>))
    ensures
        s == ends.0 + trimmed(s) + ends.1,
        forall|i: int| 0 <= i < ends.0.len() ==> is_white(#[trigger] ends.0[i]),
        forall|i: int| 0 <= i < ends.1.len() ==> is_white(#[trigger] ends.1[i]),
        trimmed(s).len() > 0 ==> !is_white(trimmed(s)[0]) && !is_white(trimmed(s).last()),
{
    let l = lemma_trim_left(s);
    let r = lemma_trim_right(trim_left(s));
    assert(s =~= l + trimmed(s) + r);
    (l, r)
}

/// Stripping a character takes its run at the end and nothing else.
pub proof fn law_stripping(s: Seq<char>, c: char) -> (run: Seq<char>)
    ensures
        s == without_trailing(s, c) + run,
        forall|i: int| 0 <= i < run.len() ==> #[trigger] run[i] == c,
        without_trailing(s, c).len() > 0 ==> without_trailing(s, c).last() != c,
    decreases s.len(),
{
    if s.len() > 0 && s.last() == c {
        let t = law_stripping(s.drop_last(), c);
        let run = t.push(c);
        assert(s =~= without_trailing(s, c) + run) by {
            assert(s.drop_last() == without_trailing(s, c) + t);
            assert(s =~= s.drop_last().push(c));
        }
        run
    } else {
        assert(s =~= s + Seq::<char>::empty());
        Seq::empty()
    }
}

proof fn lemma_folded(a: char, b: char)
    ensures
        folded(a) == folded(b) <==> a == b || ('A' <= a <= 'Z' && a as u32 + 32 == b as u32) || ('A'
            <= b <= 'Z' && b as u32 + 32 == a as u32),
{
}

/// Two texts are the same but for case where they have the same length, and at each place the same
/// character or the two forms of the same ASCII letter.
pub proof fn law_same_but_for_case(a: Seq<char>, b: Seq<char>)
    ensures
        same_ignoring_case(a, b) <==> a.len() == b.len() && forall|i: int|
            0 <= i < a.len() ==> {
                let (x, y) = (#[trigger] a[i], b[i]);
                x == y || ('A' <= x <= 'Z' && x as u32 + 32 == y as u32) || ('A' <= y <= 'Z'
                    && y as u32 + 32 == x as u32)
            },
        same_ignoring_case(a, a),
        same_ignoring_case(a, b) ==> same_ignoring_case(b, a),
{
    assert forall|i: int| 0 <= i < a.len() && a.len() == b.len() implies {
        let (x, y) = (#[trigger] a[i], b[i]);
        folded(x) == folded(y) <==> x == y || ('A' <= x <= 'Z' && x as u32 + 32 == y as u32) || (
        'A' <= y <= 'Z' && y as u32 + 32 == x as u32)
    } by {
        lemma_folded(a[i], b[i]);
    }
    if same_ignoring_case(a, b) {
        assert forall|i: int| 0 <= i < b.len() implies folded(#[trigger] b[i]) == folded(a[i]) by {
            assert(folded(a[i]) == folded(b[i]));
        }
    }
}

/// A text begins with another exactly where it is that text with something behind it, and has it
/// at a place exactly where it is that text between two others.
pub proof fn law_parts_of_a_text(s: Seq<char>, part: Seq<char>, k: int, before: Seq<char>, rest: Seq<char>)
    ensures
        begins_with(part + rest, part),
        begins_with(s, part) ==> s == part + s.skip(part.len() as int),
        is_part_at(before + part + rest, part, before.len() as int),
        is_part_at(s, part, k) ==> 0 <= k <= s.len() && s == s.take(k) + part + s.skip(
            k + part.len(),
        ),
{
    assert((part + rest).take(part.len() as int) =~= part);
    let b = before.len() as int;
    assert((before + part + rest).subrange(b, b + part.len()) =~= part);
    if begins_with(s, part) {
        assert(s =~= s.take(part.len() as int) + s.skip(part.len() as int));
    }
    if is_part_at(s, part, k) {
        assert(s =~= s.take(k) + s.subrange(k, k + part.len()) + s.skip(k + part.len()));
    }
}

/// The digits stand for their values.
pub proof fn law_digits(d: int)
    requires
        0 <= d < 10,
    ensures
        digit_char(d) as u32 == '0' as u32 + d,
{
}

/// A numeral's last digit is the number's remainder by ten, and what stands before it is the
/// numeral of the quotient; the first digit is zero for zero alone.
pub proof fn law_decimal(n: nat)
    ensures
        decimal(n).len() > 0,
        decimal(n).last() as u32 == '0' as u32 + n % 10,
        n >= 10 ==> decimal(n).drop_last() == decimal(n / 10),
        n < 10 ==> decimal(n).len() == 1,
        decimal(n)[0] == '0' <==> n == 0,
    decreases n,
{
    law_digits((n % 10) as int);
    if n >= 10 {
        law_decimal(n / 10);
        assert(decimal(n).drop_last() =~= decimal(n / 10));
        assert(decimal(n)[0] == decimal(n / 10)[0]);
    }
}

} // verus!
