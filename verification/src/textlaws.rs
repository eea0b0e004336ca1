//! What holds of texts and their pieces.

use vstd::prelude::*;
use vstd::utf8::encode_utf8;

use crate::classifier::{kept_words, lower_words, tokens, word_separators};
use crate::text::{
    bool_text, contains_text, decimal_text, digits_value, fields, hex_text, is_number, is_space,
    joined_by, lemma_runs, lowercase, occurs_at, padded, runs, signed_text, trim_back, trim_front,
    unsigned_part,
};

verus! {

/// A text that is not empty and holds no separator is one run.
pub proof fn law_run_alone(w: Seq<char>, seps: Seq<char>)
    requires
        w.len() > 0,
        forall|i: int| 0 <= i < w.len() ==> !seps.contains(#[trigger] w[i]),
    ensures
        runs(w, seps) == seq![w],
    decreases w.len(),
{
    let front = w.drop_last();
    assert(w[w.len() - 1] == w.last());
    if w.len() == 1 {
        assert(runs(front, seps) =~= Seq::empty());
        assert(w =~= seq![w.last()]);
    } else {
        assert forall|i: int| 0 <= i < front.len() implies !seps.contains(#[trigger] front[i]) by {
            assert(front[i] == w[i]);
        }
        law_run_alone(front, seps);
        assert(!seps.contains(w[w.len() - 2]));
        assert(front.push(w.last()) =~= w);
        assert(runs(w, seps) =~= seq![w]);
    }
}

/// A separator parts the runs before it from those behind it; an empty text has
/// none.
pub proof fn law_runs_are_parted(a: Seq<char>, c: char, b: Seq<char>, seps: Seq<char>)
    requires
        seps.contains(c),
    ensures
        runs(a.push(c) + b, seps) == runs(a, seps) + runs(b, seps),
        runs(Seq::<char>::empty(), seps) == Seq::<Seq<char>>::empty(),
    decreases b.len(),
{
    let s = a.push(c) + b;
    if b.len() == 0 {
        assert(s =~= a.push(c));
        assert(s.drop_last() =~= a);
        assert(runs(a, seps) + runs(b, seps) =~= runs(a, seps));
    } else {
        let front = b.drop_last();
        law_runs_are_parted(a, c, front, seps);
        assert(s.drop_last() =~= a.push(c) + front);
        assert(s.last() == b.last());
        lemma_runs(front, seps);
        let x = runs(a, seps);
        let y = runs(front, seps);
        if !seps.contains(b.last()) {
            if b.len() >= 2 {
                assert(s[s.len() - 2] == b[b.len() - 2]);
                assert(front.last() == b[b.len() - 2]);
                if !seps.contains(b[b.len() - 2]) {
                    let longer = y.last().push(b.last());
                    assert((x + y).last() == y.last());
                    assert((x + y).drop_last().push(longer) =~= x + y.drop_last().push(longer));
                } else {
                    assert((x + y).push(seq![b.last()]) =~= x + y.push(seq![b.last()]));
                }
            } else {
                assert(s[s.len() - 2] == c);
                assert((x + y).push(seq![b.last()]) =~= x + y.push(seq![b.last()]));
            }
        }
    }
}

/// A text contains another one exactly if the other one stands somewhere in it.
pub proof fn law_contains(a: Seq<char>, part: Seq<char>, b: Seq<char>, s: Seq<char>)
    ensures
        contains_text(a + part + b, part),
        contains_text(s, part) ==> exists|i: int|
            0 <= i <= s.len() - part.len() && #[trigger] s.subrange(i, i + part.len()) == part,
{
    let whole = a + part + b;
    assert(whole.subrange(a.len() as int, a.len() as int + part.len()) =~= part);
    assert(occurs_at(whole, part, a.len() as int));
    if contains_text(s, part) {
        let i = choose|i: int| occurs_at(s, part, i);
        assert(s.subrange(i, i + part.len()) == part);
    }
}

/// Spaces of every width, tabs and line ends are white space, and what can be
/// seen is not.
pub proof fn law_white_space(c: char)
    ensures
        is_space(' ') && is_space('\t') && is_space('\n') && is_space('\r'),
        is_space('\u{b}') && is_space('\u{c}') && is_space('\u{85}') && is_space('\u{a0}'),
        is_space('\u{1680}') && is_space('\u{202f}') && is_space('\u{205f}') && is_space('\u{3000}'),
        is_space('\u{2028}') && is_space('\u{2029}'),
        0x2000 <= c as int <= 0x200a ==> is_space(c),
        c as int <= 8 || 0xe <= c as int <= 0x1f ==> !is_space(c),
        0x21 <= c as int <= 0x84 || 0x86 <= c as int <= 0x9f ==> !is_space(c),
        0xa1 <= c as int <= 0x167f || 0x1681 <= c as int <= 0x1fff ==> !is_space(c),
        0x200b <= c as int <= 0x2027 || 0x202a <= c as int <= 0x202e ==> !is_space(c),
        0x2030 <= c as int <= 0x205e || 0x2060 <= c as int <= 0x2fff ==> !is_space(c),
        0x3001 <= c as int ==> !is_space(c),
{
}

proof fn lemma_trim_front(a: Seq<char>, t: Seq<char>)
    requires
        forall|i: int| 0 <= i < a.len() ==> is_space(#[trigger] a[i]),
        t.len() > 0 ==> !is_space(t[0]),
    ensures
        trim_front(a + t) == t,
    decreases a.len(),
{
    if a.len() == 0 {
        assert(a + t =~= t);
    } else {
        let rest = a.drop_first();
        assert forall|i: int| 0 <= i < rest.len() implies is_space(#[trigger] rest[i]) by {
            assert(rest[i] == a[i + 1]);
        }
        lemma_trim_front(rest, t);
        assert(is_space(a[0]));
        assert((a + t)[0] == a[0]);
        assert((a + t).drop_first() =~= rest + t);
    }
}

proof fn lemma_trim_back(t: Seq<char>, b: Seq<char>)
    requires
        forall|i: int| 0 <= i < b.len() ==> is_space(#[trigger] b[i]),
        t.len() > 0 ==> !is_space(t.last()),
    ensures
        trim_back(t + b) == t,
    decreases b.len(),
{
    if b.len() == 0 {
        assert(t + b =~= t);
    } else {
        let front = b.drop_last();
        assert forall|i: int| 0 <= i < front.len() implies is_space(#[trigger] front[i]) by {
            assert(front[i] == b[i]);
        }
        lemma_trim_back(t, front);
        assert(is_space(b[b.len() - 1]));
        assert((t + b).last() == b.last());
        assert((t + b).drop_last() =~= t + front);
    }
}

/// Trimming takes away white space at both ends and nothing else.
pub proof fn law_trim(a: Seq<char>, t: Seq<char>, b: Seq<char>)
    requires
        forall|i: int| 0 <= i < a.len() ==> is_space(#[trigger] a[i]),
        forall|i: int| 0 <= i < b.len() ==> is_space(#[trigger] b[i]),
        t.len() > 0 ==> !is_space(t[0]) && !is_space(t.last()),
    ensures
        trim_back(trim_front(a + t + b)) == t,
{
    if t.len() > 0 {
        lemma_trim_front(a, t + b);
        assert(a + t + b =~= a + (t + b));
        lemma_trim_back(t, b);
    } else {
        let s = a + t + b;
        assert forall|i: int| 0 <= i < s.len() implies is_space(#[trigger] s[i]) by {
            if i < a.len() {
                assert(s[i] == a[i]);
            } else {
                assert(s[i] == b[i - a.len()]);
            }
        }
        lemma_trim_front(s, Seq::empty());
        assert(s + Seq::<char>::empty() =~= s);
        assert(t =~= Seq::empty());
        assert(trim_back(Seq::<char>::empty()) =~= Seq::empty());
    }
}

/// A number is written in decimal digits that have its value, without zeros
/// before them, and is read back as that number.
pub proof fn law_decimal(n: nat)
    ensures
        digits_value(decimal_text(n)) == n,
        decimal_text(n).len() > 0,
        forall|i: int| 0 <= i < decimal_text(n).len() ==> '0' <= #[trigger] decimal_text(n)[i] <= '9',
        n > 0 ==> decimal_text(n)[0] != '0',
        n == 0 ==> decimal_text(n) == seq!['0'],
        is_number(decimal_text(n), n as int),
    decreases n,
{
    let t = decimal_text(n);
    if n < 10 {
        assert(t.drop_last() =~= Seq::empty());
        assert(t.last() as int == 48 + n);
        assert(digits_value(t.drop_last()) == 0);
    } else {
        law_decimal(n / 10);
        let front = decimal_text(n / 10);
        assert(t.drop_last() =~= front);
        assert(t.last() as int == 48 + n % 10);
        assert(t[0] == front[0]);
        assert forall|i: int| 0 <= i < t.len() implies '0' <= #[trigger] t[i] <= '9' by {
            if i < front.len() {
                assert(t[i] == front[i]);
            }
        }
    }
}

/// A plus sign before a number changes nothing, and a text with anything else
/// than digits behind it is no number.
pub proof fn law_numbers(n: nat, s: Seq<char>, i: int, m: int)
    ensures
        is_number(seq!['+'] + decimal_text(n), n as int),
        0 < i < s.len() && !('0' <= s[i] <= '9') ==> !is_number(s, m),
        s.len() > 0 && s[0] != '+' && !('0' <= s[0] <= '9') ==> !is_number(s, m),
        s.len() == 0 ==> !is_number(s, m),
{
    law_decimal(n);
    let p = seq!['+'] + decimal_text(n);
    assert(p[0] == '+');
    assert(p.drop_first() =~= decimal_text(n));
    assert(unsigned_part(p) == decimal_text(n));
    let d = unsigned_part(s);
    if 0 < i < s.len() && is_number(s, m) {
        if s[0] == '+' {
            assert(d[i - 1] == s[i]);
        } else {
            assert(d[i] == s[i]);
        }
    }
    if s.len() > 0 && s[0] != '+' && is_number(s, m) {
        assert(d[0] == s[0]);
    }
}

/// A negative number has a minus sign and the digits of its amount, another one
/// only its digits.
pub proof fn law_signed(n: nat)
    ensures
        signed_text(n as int) == decimal_text(n),
        n > 0 ==> signed_text(-(n as int)) == seq!['-'] + decimal_text(n),
{
}

/// The value of a lower-case hexadecimal digit.
pub open spec fn hex_value(c: char) -> int {
    if '0' <= c <= '9' {
        c as int - '0' as int
    } else if 'a' <= c <= 'f' {
        c as int - 'a' as int + 10
    } else {
        -1
    }
}

/// A byte is written as two digits with its value, the high one first.
pub proof fn law_hex(bytes: Seq<u8>, i: int)
    requires
        0 <= i < bytes.len(),
    ensures
        hex_text(bytes).len() == 2 * bytes.len(),
        0 <= hex_value(hex_text(bytes)[2 * i]) <= 15,
        0 <= hex_value(hex_text(bytes)[2 * i + 1]) <= 15,
        bytes[i] == 16 * hex_value(hex_text(bytes)[2 * i]) + hex_value(hex_text(bytes)[2 * i + 1]),
{
    let b = bytes[i];
    assert((2 * i) % 2 == 0 && (2 * i) / 2 == i);
    assert((2 * i + 1) % 2 == 1 && (2 * i + 1) / 2 == i);
    assert(b == 16 * (b / 16) + b % 16);
}

/// Padding puts spaces behind a text, up to the width, and nothing where the
/// text is wide enough.
pub proof fn law_padded(s: Seq<char>, width: nat)
    ensures
        s.is_prefix_of(padded(s, width)),
        s.len() >= width ==> padded(s, width) == s,
        s.len() < width ==> padded(s, width).len() == width,
        forall|i: int| s.len() <= i < padded(s, width).len() ==> #[trigger] padded(s, width)[i] == ' ',
{
    if s.len() >= width {
        assert(padded(s, width) =~= s);
    }
}

/// Truth values read `true` and `false`.
pub proof fn law_bool_text()
    ensures
        bool_text(true) == "true"@,
        bool_text(false) == "false"@,
{
}

/// No piece between separators holds one.
pub proof fn law_fields_hold_no_separator(s: Seq<char>, sep: char, i: int)
    requires
        0 <= i < fields(s, sep).len(),
    ensures
        !fields(s, sep)[i].contains(sep),
    decreases s.len(),
{
    let now = fields(s, sep);
    if s.len() > 0 {
        let before = fields(s.drop_last(), sep);
        crate::text::law_joined_fields(s.drop_last(), sep);
        if i < before.len() - 1 {
            law_fields_hold_no_separator(s.drop_last(), sep, i);
            assert(now[i] == before[i]);
        } else if s.last() == sep {
            if i < before.len() {
                law_fields_hold_no_separator(s.drop_last(), sep, i);
                assert(now[i] == before[i]);
            }
        } else {
            law_fields_hold_no_separator(s.drop_last(), sep, i);
            let w = before.last();
            assert(now[i] == w.push(s.last()));
            if now[i].contains(sep) {
                let k = choose|k: int| 0 <= k < now[i].len() && now[i][k] == sep;
                assert(w[k] == sep);
            }
        }
    }
}

proof fn lemma_fields_of_part(x: Seq<char>, w: Seq<char>, sep: char)
    requires
        !w.contains(sep),
    ensures
        fields(x.push(sep) + w, sep) == fields(x, sep).push(w),
        fields(w, sep) == seq![w],
    decreases w.len(),
{
    let s = x.push(sep) + w;
    if w.len() == 0 {
        assert(s =~= x.push(sep));
        assert(s.drop_last() =~= x);
        assert(w =~= Seq::empty());
    } else {
        let front = w.drop_last();
        if front.contains(sep) {
            let k = choose|k: int| 0 <= k < front.len() && front[k] == sep;
            assert(w[k] == sep);
        }
        assert(w.contains(w[w.len() - 1]));
        lemma_fields_of_part(x, front, sep);
        assert(s.drop_last() =~= x.push(sep) + front);
        assert(front.push(w.last()) =~= w);
        assert(fields(x, sep).push(front).drop_last() =~= fields(x, sep));
        assert(seq![front].drop_last() =~= Seq::empty());
        assert(Seq::empty().push(w) =~= seq![w]);
    }
}

/// Joined texts are parted into the same texts, if none holds the separator.
pub proof fn law_fields_of_joined(parts: Seq<Seq<char>>, sep: char)
    requires
        parts.len() > 0,
        forall|i: int| 0 <= i < parts.len() ==> !(#[trigger] parts[i]).contains(sep),
    ensures
        fields(joined_by(parts, sep), sep) == parts,
    decreases parts.len(),
{
    let w = parts.last();
    assert(!parts[parts.len() - 1].contains(sep));
    if parts.len() == 1 {
        lemma_fields_of_part(Seq::empty(), w, sep);
        assert(seq![w] =~= parts);
    } else {
        let front = parts.drop_last();
        assert forall|i: int| 0 <= i < front.len() implies !(#[trigger] front[i]).contains(sep) by {
            assert(front[i] == parts[i]);
        }
        law_fields_of_joined(front, sep);
        lemma_fields_of_part(joined_by(front, sep), w, sep);
        assert(front.push(w) =~= parts);
    }
}

/// The characters between words are those that part names in a path and words
/// in a name.
pub open spec fn parts_words(c: char) -> bool {
    c == '/' || c == '\\' || c == '_' || c == '-' || c == '.' || c == ' '
}

proof fn lemma_separators(c: char)
    ensures
        word_separators().contains(c) == parts_words(c),
{
    let s = word_separators();
    assert(s[0] == '/' && s[1] == '\\' && s[2] == '_' && s[3] == '-' && s[4] == '.' && s[5] == ' ');
}

proof fn lemma_kept_append(a: Seq<Seq<char>>, b: Seq<Seq<char>>, n: int)
    requires
        0 <= n <= b.len(),
    ensures
        kept_words(a + b, a.len() + n) == kept_words(a, a.len() as int) + kept_words(b, n),
    decreases n,
{
    if n > 0 {
        lemma_kept_append(a, b, n - 1);
        assert((a + b)[a.len() + n - 1] == b[n - 1]);
        let x = kept_words(a, a.len() as int);
        let y = kept_words(b, n - 1);
        assert((x + y).push(b[n - 1]) =~= x + y.push(b[n - 1]));
    } else {
        lemma_kept_prefix(a, b, a.len() as int);
        assert(kept_words(a, a.len() as int) + kept_words(b, 0) =~= kept_words(a, a.len() as int));
    }
}

proof fn lemma_kept_prefix(a: Seq<Seq<char>>, b: Seq<Seq<char>>, n: int)
    requires
        0 <= n <= a.len(),
    ensures
        kept_words(a + b, n) == kept_words(a, n),
    decreases n,
{
    if n > 0 {
        lemma_kept_prefix(a, b, n - 1);
        assert((a + b)[n - 1] == a[n - 1]);
    }
}

/// A separator parts the word pieces before it from those behind it, and an
/// empty text has none.
pub proof fn law_tokens_are_parted(a: Seq<char>, c: char, b: Seq<char>)
    requires
        parts_words(c),
    ensures
        tokens(a.push(c) + b) == tokens(a) + tokens(b),
        tokens(Seq::<char>::empty()) == Seq::<Seq<char>>::empty(),
{
    lemma_separators(c);
    let seps = word_separators();
    law_runs_are_parted(a, c, b, seps);
    let x = lower_words(a);
    let y = lower_words(b);
    assert(lower_words(a.push(c) + b) =~= x + y);
    lemma_kept_append(x, y, y.len() as int);
    assert(lower_words(Seq::<char>::empty()) =~= Seq::empty());
    assert(tokens(Seq::<char>::empty()) =~= Seq::empty());
}

/// A word without separators has itself, in lower case, as its only word piece,
/// unless that is a single byte or nothing.
pub proof fn law_token_alone(w: Seq<char>)
    requires
        w.len() > 0,
        forall|i: int| 0 <= i < w.len() ==> !parts_words(#[trigger] w[i]),
    ensures
        tokens(w) == if encode_utf8(lowercase(w)).len() >= 2 {
            seq![lowercase(w)]
        } else {
            Seq::empty()
        },
{
    let seps = word_separators();
    assert forall|i: int| 0 <= i < w.len() implies !seps.contains(#[trigger] w[i]) by {
        lemma_separators(w[i]);
    }
    law_run_alone(w, seps);
    let words = lower_words(w);
    assert(words =~= seq![lowercase(w)]);
    assert(kept_words(words, 0) =~= Seq::empty());
    assert(words[0] == lowercase(w));
    assert(tokens(w) == kept_words(words, 1));
    assert(Seq::empty().push(lowercase(w)) =~= seq![lowercase(w)]);
}

} // verus!
