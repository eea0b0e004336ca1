//! Text helpers.

use vstd::prelude::*;
use vstd::utf8::encode_utf8;

verus! {

/// `String::push`: the character stands at the end afterwards.
pub assume_specification[ String::push ](s: &mut String, c: char)
    ensures
        final(s)@ == old(s)@.push(c),
;

/// What the strings say.
pub open spec fn texts(v: Seq<String>) -> Seq<Seq<char>> {
    Seq::new(v.len(), |i: int| v[i]@)
}

/// The lower-case hexadecimal digit for `n`.
pub open spec fn hex_digit(n: u8) -> char {
    if n < 10 {
        (48 + n) as char
    } else {
        (87 + n) as char
    }
}

/// Two hexadecimal digits for every byte.
pub open spec fn hex_text(bytes: Seq<u8>) -> Seq<char> {
    Seq::new(
        2 * bytes.len(),
        |i: int|
            if i % 2 == 0 {
                hex_digit(bytes[i / 2] / 16)
            } else {
                hex_digit(bytes[i / 2] % 16)
            },
    )
}

fn digit(n: u8) -> (c: char)
    requires
        n < 16,
    ensures
        c == hex_digit(n),
{
    if n < 10 {
        (48 + n) as char
    } else {
        (87 + n) as char
    }
}

/// Writes the bytes as lower-case hexadecimal digits.
pub fn to_hex(bytes: &[u8]) -> (s: String)
    ensures
        s@ == hex_text(bytes@),
{
    let mut s = String::new();
    let mut i: usize = 0;
    while i < bytes.len()
        invariant
            i <= bytes@.len(),
            s@ == hex_text(bytes@).take(2 * i),
        decreases bytes@.len() - i,
    {
        s.push(digit(bytes[i] / 16));
        s.push(digit(bytes[i] % 16));
        i = i + 1;
        proof {
            let t = hex_text(bytes@);
            assert(t[2 * i - 2] == hex_digit(bytes@[i - 1] / 16));
            assert(t[2 * i - 1] == hex_digit(bytes@[i - 1] % 16));
            assert(s@ =~= t.take(2 * i));
        }
    }
    assert(hex_text(bytes@).take(2 * i) =~= hex_text(bytes@));
    s
}

/// The maximal runs of characters of `s` that are not in `seps`, in order.
pub open spec fn runs(s: Seq<char>, seps: Seq<char>) -> Seq<Seq<char>>
    decreases s.len(),
{
    if s.len() == 0 {
        Seq::empty()
    } else {
        let before = runs(s.drop_last(), seps);
        if seps.contains(s.last()) {
            before
        } else if s.len() >= 2 && !seps.contains(s[s.len() - 2]) {
            before.drop_last().push(before.last().push(s.last()))
        } else {
            before.push(seq![s.last()])
        }
    }
}

/// There are no more runs than characters, and none is empty.
pub proof fn lemma_runs(s: Seq<char>, seps: Seq<char>)
    ensures
        runs(s, seps).len() <= s.len(),
        forall|i: int| 0 <= i < runs(s, seps).len() ==> (#[trigger] runs(s, seps)[i]).len() > 0,
        s.len() > 0 && !seps.contains(s.last()) ==> runs(s, seps).len() > 0,
    decreases s.len(),
{
    if s.len() > 0 {
        lemma_runs(s.drop_last(), seps);
    }
}

fn is_one_of(c: char, seps: &[char]) -> (r: bool)
    ensures
        r == seps@.contains(c),
{
    let mut i: usize = 0;
    while i < seps.len()
        invariant
            i <= seps@.len(),
            forall|j: int| 0 <= j < i ==> seps@[j] != c,
        decreases seps@.len() - i,
    {
        if seps[i] == c {
            assert(seps@[i as int] == c);
            return true;
        }
        i = i + 1;
    }
    false
}

/// Splits a text at the characters in `seps`; empty pieces are left out.
pub fn split_runs(s: &str, seps: &[char]) -> (v: Vec<String>)
    ensures
        texts(v@) == runs(s@, seps@),
{
    let mut v: Vec<String> = Vec::new();
    let mut run = String::new();
    let ghost mut n: int = 0;
    for c in it: s.chars()
        invariant
            it.seq() == s@,
            n == it.index(),
            0 <= n <= s@.len(),
            run@.len() > 0 <==> n > 0 && !seps@.contains(s@[n - 1]),
            runs(s@.take(n), seps@) == if run@.len() > 0 {
                texts(v@).push(run@)
            } else {
                texts(v@)
            },
    {
        proof {
            assert(s@.take(n + 1).drop_last() =~= s@.take(n));
            assert(s@.take(n + 1).last() == c);
        }
        if is_one_of(c, seps) {
            if run.as_str().is_empty() {
            } else {
                let ghost before = v@;
                let ghost r = run@;
                v.push(run);
                run = String::new();
                assert(texts(v@) =~= texts(before).push(r));
            }
        } else {
            let ghost r = run@;
            run.push(c);
            proof {
                if r.len() == 0 {
                    assert(run@ =~= seq![c]);
                } else {
                    assert(texts(v@).push(r).drop_last() =~= texts(v@));
                }
            }
        }
        proof {
            n = n + 1;
        }
    }
    assert(s@.take(n) =~= s@);
    if !run.as_str().is_empty() {
        let ghost before = v@;
        let ghost r = run@;
        v.push(run);
        assert(texts(v@) =~= texts(before).push(r));
    }
    v
}

/// The decimal digits of `n`.
pub open spec fn decimal_text(n: nat) -> Seq<char>
    decreases n,
{
    if n < 10 {
        seq![(48 + n) as char]
    } else {
        decimal_text(n / 10).push((48 + n % 10) as char)
    }
}

/// Writes a number in decimal digits.
pub fn decimal(n: u64) -> (s: String)
    ensures
        s@ == decimal_text(n as nat),
    decreases n,
{
    if n < 10 {
        let mut s = String::new();
        s.push((48 + n as u8) as char);
        assert(s@ =~= decimal_text(n as nat));
        s
    } else {
        let mut s = decimal(n / 10);
        s.push((48 + (n % 10) as u8) as char);
        s
    }
}

/// The lower-case form of a text.
pub uninterp spec fn lowercase(s: Seq<char>) -> Seq<char>;

/// `str::to_lowercase`: the lower-case form depends on the text alone.
#[verifier::external_body]
fn std_to_lowercase(s: &str) -> (r: String)
    ensures
        r@ == lowercase(s@),
{
    s.to_lowercase()
}

/// The text in lower case.
pub fn to_lower(s: &str) -> (r: String)
    ensures
        r@ == lowercase(s@),
{
    std_to_lowercase(s)
}

/// The characters of a text.
pub fn chars_of(s: &str) -> (v: Vec<char>)
    ensures
        v@ == s@,
{
    let mut v: Vec<char> = Vec::new();
    for c in it: s.chars()
        invariant
            it.seq() == s@,
            v@ == s@.take(it.index()),
    {
        v.push(c);
        assert(v@ =~= s@.take(it.index() + 1));
    }
    assert(s@.take(s@.len() as int) =~= s@);
    v
}

/// The text that the characters of `v` from `from` to `to` make up.
pub fn text_of(v: &Vec<char>, from: usize, to: usize) -> (s: String)
    requires
        from <= to <= v@.len(),
    ensures
        s@ == v@.subrange(from as int, to as int),
{
    let mut s = String::new();
    let mut i: usize = from;
    while i < to
        invariant
            from <= i <= to <= v@.len(),
            s@ == v@.subrange(from as int, i as int),
        decreases to - i,
    {
        s.push(v[i]);
        i = i + 1;
        assert(s@ =~= v@.subrange(from as int, i as int));
    }
    s
}

/// `part` occurs in `s` at `i`.
pub open spec fn occurs_at(s: Seq<char>, part: Seq<char>, i: int) -> bool {
    0 <= i && i + part.len() <= s.len() && s.subrange(i, i + part.len()) == part
}

/// `part` occurs in `s`.
pub open spec fn contains_text(s: Seq<char>, part: Seq<char>) -> bool {
    exists|i: int| occurs_at(s, part, i)
}

/// Whether `part` occurs in `s`.
pub fn contains(s: &str, part: &str) -> (r: bool)
    ensures
        r == contains_text(s@, part@),
{
    let a = chars_of(s);
    let b = chars_of(part);
    if b.len() > a.len() {
        return false;
    }
    let last: usize = a.len() - b.len();
    let mut i: usize = 0;
    loop
        invariant
            a@ == s@,
            b@ == part@,
            last == a@.len() - b@.len(),
            i <= last,
            forall|j: int| 0 <= j < i ==> !occurs_at(s@, part@, j),
        decreases last - i,
    {
        let mut n: usize = 0;
        while n < b.len() && a[i + n] == b[n]
            invariant
                i + b@.len() <= a.len(),
                n <= b@.len(),
                forall|j: int| 0 <= j < n ==> a@[i + j] == b@[j],
            decreases b@.len() - n,
        {
            n = n + 1;
        }
        if n == b.len() {
            assert(a@.subrange(i as int, i + b@.len()) =~= b@);
            assert(occurs_at(s@, part@, i as int));
            return true;
        }
        proof {
            if occurs_at(s@, part@, i as int) {
                assert(s@.subrange(i as int, i + part@.len())[n as int] == a@[i + n]);
            }
        }
        if i == last {
            return false;
        }
        i = i + 1;
    }
}

/// A white-space character.
pub open spec fn is_space(c: char) -> bool {
    let n = c as int;
    9 <= n <= 13 || n == 0x20 || n == 0x85 || n == 0xa0 || n == 0x1680 || 0x2000 <= n <= 0x200a || n
        == 0x2028 || n == 0x2029 || n == 0x202f || n == 0x205f || n == 0x3000
}

fn space(c: char) -> (r: bool)
    ensures
        r == is_space(c),
{
    let n = c as u32;
    9 <= n && n <= 13 || n == 0x20 || n == 0x85 || n == 0xa0 || n == 0x1680 || 0x2000 <= n && n
        <= 0x200a || n == 0x2028 || n == 0x2029 || n == 0x202f || n == 0x205f || n == 0x3000
}

/// The text without white space at its start.
pub open spec fn trim_front(s: Seq<char>) -> Seq<char>
    decreases s.len(),
{
    if s.len() > 0 && is_space(s[0]) {
        trim_front(s.drop_first())
    } else {
        s
    }
}

/// The text without white space at its end.
pub open spec fn trim_back(s: Seq<char>) -> Seq<char>
    decreases s.len(),
{
    if s.len() > 0 && is_space(s.last()) {
        trim_back(s.drop_last())
    } else {
        s
    }
}

/// The text without white space at either end.
pub fn trim(s: &str) -> (r: String)
    ensures
        r@ == trim_back(trim_front(s@)),
{
    let v = chars_of(s);
    let mut from: usize = 0;
    assert(v@.skip(0) =~= v@);
    while from < v.len() && space(v[from])
        invariant
            v@ == s@,
            from <= v@.len(),
            trim_front(s@) == trim_front(v@.skip(from as int)),
        decreases v@.len() - from,
    {
        assert(v@.skip(from as int).drop_first() =~= v@.skip(from + 1));
        from = from + 1;
    }
    let ghost rest = v@.skip(from as int);
    let mut to: usize = v.len();
    assert(v@.subrange(from as int, to as int) =~= rest);
    while to > from && space(v[to - 1])
        invariant
            from <= to <= v@.len(),
            trim_back(rest) == trim_back(v@.subrange(from as int, to as int)),
        decreases to,
    {
        assert(v@.subrange(from as int, to as int).drop_last() =~= v@.subrange(
            from as int,
            to - 1,
        ));
        to = to - 1;
    }
    text_of(&v, from, to)
}

/// The number of bytes of a text.
pub fn byte_len(s: &str) -> (n: usize)
    ensures
        n == encode_utf8(s@).len(),
{
    s.as_bytes().len()
}

/// The pieces of a text between the occurrences of `sep`, empty ones too.
pub open spec fn fields(s: Seq<char>, sep: char) -> Seq<Seq<char>>
    decreases s.len(),
{
    if s.len() == 0 {
        seq![Seq::empty()]
    } else {
        let before = fields(s.drop_last(), sep);
        if s.last() == sep {
            before.push(Seq::empty())
        } else {
            before.drop_last().push(before.last().push(s.last()))
        }
    }
}

/// The texts one behind the other with `sep` between them.
pub open spec fn joined_by(parts: Seq<Seq<char>>, sep: char) -> Seq<char>
    decreases parts.len(),
{
    if parts.len() == 0 {
        Seq::empty()
    } else if parts.len() == 1 {
        parts[0]
    } else {
        joined_by(parts.drop_last(), sep).push(sep) + parts.last()
    }
}

/// Joining the pieces of a text gives the text back.
pub proof fn law_joined_fields(s: Seq<char>, sep: char)
    ensures
        fields(s, sep).len() >= 1,
        joined_by(fields(s, sep), sep) == s,
    decreases s.len(),
{
    let now = fields(s, sep);
    if s.len() > 0 {
        law_joined_fields(s.drop_last(), sep);
        let before = fields(s.drop_last(), sep);
        assert(s =~= s.drop_last().push(s.last()));
        if s.last() == sep {
            assert(now.drop_last() =~= before);
            assert(joined_by(now, sep) =~= s);
        } else {
            assert(now.drop_last() =~= before.drop_last());
            assert(now.last() == before.last().push(s.last()));
            assert(joined_by(now, sep) =~= s);
        }
    }
}

/// Splits a text at every occurrence of `sep`.
pub fn split_fields(s: &str, sep: char) -> (v: Vec<String>)
    ensures
        texts(v@) == fields(s@, sep),
{
    let mut v: Vec<String> = Vec::new();
    let mut field = String::new();
    let ghost mut n: int = 0;
    assert(texts(v@).push(field@) =~= fields(s@.take(0), sep));
    for c in it: s.chars()
        invariant
            it.seq() == s@,
            n == it.index(),
            0 <= n <= s@.len(),
            texts(v@).push(field@) == fields(s@.take(n), sep),
    {
        proof {
            assert(s@.take(n + 1).drop_last() =~= s@.take(n));
            assert(s@.take(n + 1).last() == c);
            assert(texts(v@).push(field@).drop_last() =~= texts(v@));
        }
        if c == sep {
            let ghost before = v@;
            let ghost f = field@;
            v.push(field);
            field = String::new();
            assert(texts(v@) =~= texts(before).push(f));
        } else {
            field.push(c);
        }
        proof {
            n = n + 1;
        }
    }
    assert(s@.take(n) =~= s@);
    let ghost before = v@;
    let ghost f = field@;
    v.push(field);
    assert(texts(v@) =~= texts(before).push(f));
    v
}

/// Joins texts with `sep` between them.
pub fn join(parts: &Vec<String>, sep: char) -> (s: String)
    ensures
        s@ == joined_by(texts(parts@), sep),
{
    let ghost all = texts(parts@);
    let mut s = String::new();
    let mut i: usize = 0;
    assert(all.take(0) =~= Seq::empty());
    while i < parts.len()
        invariant
            all == texts(parts@),
            i <= parts@.len(),
            s@ == joined_by(all.take(i as int), sep),
        decreases parts@.len() - i,
    {
        if i > 0 {
            s.push(sep);
        }
        s.append(parts[i].as_str());
        proof {
            assert(all.take(i + 1).drop_last() =~= all.take(i as int));
            assert(all.take(i + 1).last() == parts@[i as int]@);
            assert(s@ =~= joined_by(all.take(i + 1), sep));
        }
        i = i + 1;
    }
    assert(all.take(i as int) =~= all);
    s
}

/// The value of decimal digits.
pub open spec fn digits_value(s: Seq<char>) -> int
    decreases s.len(),
{
    if s.len() == 0 {
        0
    } else {
        10 * digits_value(s.drop_last()) + (s.last() as int - 48)
    }
}

/// The text without a plus sign at its start.
pub open spec fn unsigned_part(s: Seq<char>) -> Seq<char> {
    if s.len() > 0 && s[0] == '+' {
        s.drop_first()
    } else {
        s
    }
}

/// `s` is an optional plus sign and at least one decimal digit, and their value
/// is `n`.
pub open spec fn is_number(s: Seq<char>, n: int) -> bool {
    let d = unsigned_part(s);
    &&& d.len() > 0
    &&& forall|i: int| 0 <= i < d.len() ==> '0' <= #[trigger] d[i] <= '9'
    &&& digits_value(d) == n
}

/// A text stands for one number.
pub proof fn lemma_number_unique(s: Seq<char>, n: int)
    requires
        is_number(s, n),
    ensures
        forall|m: int| is_number(s, m) ==> m == n,
{
}

/// What is said of a text that is not a number of type `usize`.
pub uninterp spec fn usize_parse_error(s: Seq<char>) -> Seq<char>;

/// `str::parse::<usize>`: an optional plus sign and decimal digits are accepted
/// where the value fits; everything else is refused, with a message that
/// depends on the text alone.
#[verifier::external_body]
fn std_parse_usize(s: &str) -> (r: Result<usize, String>)
    ensures
        match r {
            Ok(n) => is_number(s@, n as int),
            Err(e) => e@ == usize_parse_error(s@) && forall|n: int|
                is_number(s@, n) ==> n > usize::MAX,
        },
{
    s.parse::<usize>().map_err(|e| e.to_string())
}

/// Reads a number.
pub fn parse_usize(s: &str) -> (r: Result<usize, String>)
    ensures
        match r {
            Ok(n) => is_number(s@, n as int),
            Err(e) => e@ == usize_parse_error(s@) && forall|n: int|
                is_number(s@, n) ==> n > usize::MAX,
        },
{
    std_parse_usize(s)
}

/// The value of digits is at least that of the first ones.
proof fn lemma_digits_grow(d: Seq<char>, i: int)
    requires
        0 <= i <= d.len(),
        forall|j: int| 0 <= j < d.len() ==> '0' <= #[trigger] d[j] <= '9',
    ensures
        0 <= digits_value(d.take(i)) <= digits_value(d),
    decreases d.len(),
{
    if i == d.len() {
        assert(d.take(i) =~= d);
        if i > 0 {
            lemma_digits_grow(d.drop_last(), i - 1);
            assert('0' <= d[i - 1]);
        }
    } else {
        lemma_digits_grow(d.drop_last(), i);
        assert(d.drop_last().take(i) =~= d.take(i));
        assert('0' <= d[d.len() - 1]);
    }
}

/// Reads a number of 64 bits: an optional plus sign and decimal digits.
pub fn parse_u64(s: &str) -> (r: Option<u64>)
    ensures
        match r {
            Some(n) => is_number(s@, n as int),
            None => forall|n: int| is_number(s@, n) ==> n > u64::MAX,
        },
{
    let v = chars_of(s);
    let signed = v.len() > 0 && v[0] == '+';
    let start: usize = if signed {
        1
    } else {
        0
    };
    let ghost d = unsigned_part(s@);
    assert(d =~= v@.skip(start as int));
    if v.len() == start {
        return None;
    }
    let mut n: u64 = 0;
    let mut i: usize = start;
    while i < v.len()
        invariant
            v@ == s@,
            start <= i <= v@.len(),
            d == v@.skip(start as int),
            d == unsigned_part(s@),
            forall|j: int| 0 <= j < i - start ==> '0' <= #[trigger] d[j] <= '9',
            n == digits_value(d.take(i - start)),
        decreases v@.len() - i,
    {
        let c = v[i];
        assert(d[i - start] == c);
        if c < '0' || c > '9' {
            assert forall|m: int| is_number(s@, m) implies m > u64::MAX by {
                assert('0' <= d[i - start] <= '9');
            }
            return None;
        }
        let digit: u64 = c as u64 - 48;
        let ghost k = i - start;
        assert(d.take(k + 1).drop_last() =~= d.take(k));
        assert(d.take(k + 1).last() == c);
        assert(digits_value(d.take(k + 1)) == 10 * n + digit);
        if n > (u64::MAX - digit) / 10 {
            proof {
                assert forall|m: int| is_number(s@, m) implies m > u64::MAX by {
                    let all = unsigned_part(s@);
                    assert(all == d);
                    lemma_digits_grow(all, k + 1);
                }
            }
            return None;
        }
        n = 10 * n + digit;
        i = i + 1;
    }
    assert(d.take(i - start) =~= d);
    Some(n)
}

/// The decimal digits of `n`, behind a minus sign where it is negative.
pub open spec fn signed_text(n: int) -> Seq<char> {
    if n < 0 {
        seq!['-'] + decimal_text((-n) as nat)
    } else {
        decimal_text(n as nat)
    }
}

/// Writes a number in decimal digits.
pub fn signed_decimal(n: i64) -> (s: String)
    ensures
        s@ == signed_text(n as int),
{
    if n < 0 {
        let mut s = String::new();
        s.push('-');
        let m: u64 = (-(n as i128)) as u64;
        let d = decimal(m);
        s.append(d.as_str());
        assert(s@ =~= signed_text(n as int));
        s
    } else {
        decimal(n as u64)
    }
}

/// The text with spaces behind it up to a width.
pub open spec fn padded(s: Seq<char>, width: nat) -> Seq<char> {
    s + Seq::new(
        if s.len() < width {
            (width - s.len()) as nat
        } else {
            0
        },
        |i: int| ' ',
    )
}

/// Puts spaces behind a text up to a width.
pub fn pad(s: &str, width: usize) -> (r: String)
    ensures
        r@ == padded(s@, width as nat),
{
    let mut r = s.to_owned();
    let mut n: usize = chars_of(s).len();
    while n < width
        invariant
            r@.len() == n,
            s@.len() <= n,
            n <= width || n == s@.len(),
            r@ == s@ + Seq::new((n - s@.len()) as nat, |i: int| ' '),
        decreases width - n,
    {
        r.push(' ');
        n = n + 1;
        assert(r@ =~= s@ + Seq::new((n - s@.len()) as nat, |i: int| ' '));
    }
    assert(r@ =~= padded(s@, width as nat));
    r
}

/// The text of a truth value.
pub open spec fn bool_text(b: bool) -> Seq<char> {
    if b {
        "true"@
    } else {
        "false"@
    }
}

} // verus!
