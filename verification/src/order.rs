//! Lexicographic order, and keys that have one.

use vstd::prelude::*;
use vstd::std_specs::iter::IteratorSpec;

verus! {

/// `a` comes before `b` in lexicographic order.
pub open spec fn lex_before(a: Seq<int>, b: Seq<int>) -> bool
    decreases a.len(),
{
    if b.len() == 0 {
        false
    } else if a.len() == 0 {
        true
    } else if a[0] != b[0] {
        a[0] < b[0]
    } else {
        lex_before(a.drop_first(), b.drop_first())
    }
}

/// Nothing comes before itself.
pub proof fn lemma_lex_irreflexive(a: Seq<int>)
    ensures
        !lex_before(a, a),
    decreases a.len(),
{
    if a.len() > 0 {
        lemma_lex_irreflexive(a.drop_first());
    }
}

/// The order is transitive.
pub proof fn lemma_lex_transitive(a: Seq<int>, b: Seq<int>, c: Seq<int>)
    requires
        lex_before(a, b),
        lex_before(b, c),
    ensures
        lex_before(a, c),
    decreases a.len(),
{
    if a.len() > 0 && b.len() > 0 && c.len() > 0 && a[0] == b[0] && b[0] == c[0] {
        lemma_lex_transitive(a.drop_first(), b.drop_first(), c.drop_first());
    }
}

/// Of two different sequences one comes before the other.
pub proof fn lemma_lex_total(a: Seq<int>, b: Seq<int>)
    ensures
        a == b || lex_before(a, b) || lex_before(b, a),
    decreases a.len(),
{
    if a.len() == 0 && b.len() == 0 {
        assert(a =~= b);
    } else if a.len() > 0 && b.len() > 0 && a[0] == b[0] {
        lemma_lex_total(a.drop_first(), b.drop_first());
        if a.drop_first() == b.drop_first() {
            assert(a =~= seq![a[0]] + a.drop_first());
            assert(b =~= seq![b[0]] + b.drop_first());
        }
    }
}

/// The code points of a text.
pub open spec fn code_points(s: Seq<char>) -> Seq<int> {
    Seq::new(s.len(), |i: int| s[i] as int)
}

/// The values of a byte string.
pub open spec fn byte_values(s: Seq<u8>) -> Seq<int> {
    Seq::new(s.len(), |i: int| s[i] as int)
}

/// Different texts have different code points.
pub proof fn lemma_code_points_injective(a: Seq<char>, b: Seq<char>)
    requires
        code_points(a) == code_points(b),
    ensures
        a == b,
{
    assert(code_points(a).len() == a.len());
    assert(code_points(b).len() == b.len());
    assert forall|i: int| 0 <= i < a.len() implies a[i] == b[i] by {
        assert(code_points(a)[i] == a[i] as int);
        assert(code_points(b)[i] == b[i] as int);
    }
    assert(a =~= b);
}

/// Different byte strings have different values.
pub proof fn lemma_byte_values_injective(a: Seq<u8>, b: Seq<u8>)
    requires
        byte_values(a) == byte_values(b),
    ensures
        a == b,
{
    assert(byte_values(a).len() == a.len());
    assert(byte_values(b).len() == b.len());
    assert forall|i: int| 0 <= i < a.len() implies a[i] == b[i] by {
        assert(byte_values(a)[i] == a[i] as int);
        assert(byte_values(b)[i] == b[i] as int);
    }
    assert(a =~= b);
}

/// A key with a strict total order on what it stands for.
pub trait OrderedKey: Sized {
    /// What the key stands for.
    type Model;

    spec fn model(self) -> Self::Model;

    /// `a` comes before `b`.
    spec fn before(a: Self::Model, b: Self::Model) -> bool;

    proof fn irreflexive(a: Self::Model)
        ensures
            !Self::before(a, a),
    ;

    proof fn transitive(a: Self::Model, b: Self::Model, c: Self::Model)
        requires
            Self::before(a, b),
            Self::before(b, c),
        ensures
            Self::before(a, c),
    ;

    proof fn total(a: Self::Model, b: Self::Model)
        ensures
            a == b || Self::before(a, b) || Self::before(b, a),
    ;

    /// Whether this key comes before `other`.
    fn precedes(&self, other: &Self) -> (r: bool)
        ensures
            r == Self::before(self.model(), other.model()),
    ;
}

impl OrderedKey for u64 {
    type Model = u64;

    open spec fn model(self) -> u64 {
        self
    }

    open spec fn before(a: u64, b: u64) -> bool {
        a < b
    }

    proof fn irreflexive(a: u64) {
    }

    proof fn transitive(a: u64, b: u64, c: u64) {
    }

    proof fn total(a: u64, b: u64) {
    }

    fn precedes(&self, other: &u64) -> (r: bool) {
        *self < *other
    }
}

impl OrderedKey for String {
    type Model = Seq<char>;

    open spec fn model(self) -> Seq<char> {
        self@
    }

    open spec fn before(a: Seq<char>, b: Seq<char>) -> bool {
        lex_before(code_points(a), code_points(b))
    }

    proof fn irreflexive(a: Seq<char>) {
        lemma_lex_irreflexive(code_points(a));
    }

    proof fn transitive(a: Seq<char>, b: Seq<char>, c: Seq<char>) {
        lemma_lex_transitive(code_points(a), code_points(b), code_points(c));
    }

    proof fn total(a: Seq<char>, b: Seq<char>) {
        lemma_lex_total(code_points(a), code_points(b));
        if code_points(a) == code_points(b) {
            lemma_code_points_injective(a, b);
        }
    }

    fn precedes(&self, other: &String) -> (r: bool) {
        text_precedes(self.as_str(), other.as_str())
    }
}

impl OrderedKey for Vec<u8> {
    type Model = Seq<u8>;

    open spec fn model(self) -> Seq<u8> {
        self@
    }

    open spec fn before(a: Seq<u8>, b: Seq<u8>) -> bool {
        lex_before(byte_values(a), byte_values(b))
    }

    proof fn irreflexive(a: Seq<u8>) {
        lemma_lex_irreflexive(byte_values(a));
    }

    proof fn transitive(a: Seq<u8>, b: Seq<u8>, c: Seq<u8>) {
        lemma_lex_transitive(byte_values(a), byte_values(b), byte_values(c));
    }

    proof fn total(a: Seq<u8>, b: Seq<u8>) {
        lemma_lex_total(byte_values(a), byte_values(b));
        if byte_values(a) == byte_values(b) {
            lemma_byte_values_injective(a, b);
        }
    }

    fn precedes(&self, other: &Vec<u8>) -> (r: bool) {
        bytes_precede(self.as_slice(), other.as_slice())
    }
}

impl OrderedKey for [u8; 32] {
    type Model = Seq<u8>;

    open spec fn model(self) -> Seq<u8> {
        self@
    }

    open spec fn before(a: Seq<u8>, b: Seq<u8>) -> bool {
        lex_before(byte_values(a), byte_values(b))
    }

    proof fn irreflexive(a: Seq<u8>) {
        lemma_lex_irreflexive(byte_values(a));
    }

    proof fn transitive(a: Seq<u8>, b: Seq<u8>, c: Seq<u8>) {
        lemma_lex_transitive(byte_values(a), byte_values(b), byte_values(c));
    }

    proof fn total(a: Seq<u8>, b: Seq<u8>) {
        lemma_lex_total(byte_values(a), byte_values(b));
        if byte_values(a) == byte_values(b) {
            lemma_byte_values_injective(a, b);
        }
    }

    fn precedes(&self, other: &[u8; 32]) -> (r: bool) {
        bytes_precede(self.as_slice(), other.as_slice())
    }
}

/// Whether `a` comes before `b` by code points.
pub fn text_precedes(a: &str, b: &str) -> (r: bool)
    ensures
        r == lex_before(code_points(a@), code_points(b@)),
{
    let mut x = a.chars();
    let mut y = b.chars();
    loop
        invariant
            lex_before(code_points(a@), code_points(b@)) == lex_before(
                code_points(x.remaining()),
                code_points(y.remaining()),
            ),
            x.obeys_prophetic_iter_laws(),
            y.obeys_prophetic_iter_laws(),
            x.decrease() is Some,
        decreases x.decrease()->0,
    {
        let ghost rx = x.remaining();
        let ghost ry = y.remaining();
        match (x.next(), y.next()) {
            (_, None) => {
                return false;
            },
            (None, Some(_)) => {
                return true;
            },
            (Some(c), Some(d)) => {
                assert(code_points(rx)[0] == c as int);
                assert(code_points(ry)[0] == d as int);
                if c != d {
                    return c < d;
                }
                proof {
                    assert(code_points(rx).drop_first() =~= code_points(rx.drop_first()));
                    assert(code_points(ry).drop_first() =~= code_points(ry.drop_first()));
                }
            },
        }
    }
}

/// Whether `a` comes before `b` byte by byte.
pub fn bytes_precede(a: &[u8], b: &[u8]) -> (r: bool)
    ensures
        r == lex_before(byte_values(a@), byte_values(b@)),
{
    let mut i: usize = 0;
    proof {
        assert(a@.skip(0) =~= a@);
        assert(b@.skip(0) =~= b@);
    }
    while i < a.len() && i < b.len()
        invariant
            i <= a@.len(),
            i <= b@.len(),
            lex_before(byte_values(a@), byte_values(b@)) == lex_before(
                byte_values(a@.skip(i as int)),
                byte_values(b@.skip(i as int)),
            ),
        decreases a@.len() - i,
    {
        let ghost sa = a@.skip(i as int);
        let ghost sb = b@.skip(i as int);
        assert(byte_values(sa)[0] == a@[i as int] as int);
        assert(byte_values(sb)[0] == b@[i as int] as int);
        if a[i] != b[i] {
            return a[i] < b[i];
        }
        proof {
            assert(byte_values(sa).drop_first() =~= byte_values(a@.skip(i + 1)));
            assert(byte_values(sb).drop_first() =~= byte_values(b@.skip(i + 1)));
        }
        i = i + 1;
    }
    i < b.len()
}

/// Whether `s` begins with `prefix`.
pub open spec fn has_prefix(s: Seq<u8>, prefix: Seq<u8>) -> bool {
    prefix.len() <= s.len() && s.take(prefix.len() as int) == prefix
}

/// Nothing that begins with `prefix` comes before it.
pub proof fn lemma_prefixed_not_before(s: Seq<u8>, prefix: Seq<u8>)
    requires
        has_prefix(s, prefix),
    ensures
        !lex_before(byte_values(s), byte_values(prefix)),
    decreases prefix.len(),
{
    if prefix.len() > 0 {
        let s1 = s.drop_first();
        let p1 = prefix.drop_first();
        assert(s[0] == s.take(prefix.len() as int)[0]);
        assert(s1.take(p1.len() as int) =~= s.take(prefix.len() as int).drop_first());
        assert(byte_values(s).drop_first() =~= byte_values(s1));
        assert(byte_values(prefix).drop_first() =~= byte_values(p1));
        assert(byte_values(s)[0] == s[0] as int && byte_values(prefix)[0] == prefix[0] as int);
        lemma_prefixed_not_before(s1, p1);
    }
}

/// What comes behind something that is not before `prefix` and does not begin
/// with it does not begin with it either.
pub proof fn lemma_past_the_prefix(a: Seq<u8>, b: Seq<u8>, prefix: Seq<u8>)
    requires
        !lex_before(byte_values(a), byte_values(prefix)),
        !has_prefix(a, prefix),
        lex_before(byte_values(a), byte_values(b)),
    ensures
        !has_prefix(b, prefix),
    decreases prefix.len(),
{
    if prefix.len() == 0 {
        assert(a.take(0) =~= prefix);
    } else if has_prefix(b, prefix) {
        let b1 = b.drop_first();
        let p1 = prefix.drop_first();
        assert(b[0] == b.take(prefix.len() as int)[0]);
        assert(b1.take(p1.len() as int) =~= b.take(prefix.len() as int).drop_first());
        assert(byte_values(b)[0] == b[0] as int && byte_values(prefix)[0] == prefix[0] as int);
        assert(byte_values(b).drop_first() =~= byte_values(b1));
        assert(byte_values(prefix).drop_first() =~= byte_values(p1));
        if a.len() > 0 {
            let a1 = a.drop_first();
            assert(byte_values(a)[0] == a[0] as int);
            assert(byte_values(a).drop_first() =~= byte_values(a1));
            if a[0] == prefix[0] {
                if has_prefix(a1, p1) {
                    assert(a.take(prefix.len() as int) =~= seq![a[0]] + a1.take(p1.len() as int));
                    assert(prefix =~= seq![prefix[0]] + p1);
                }
                lemma_past_the_prefix(a1, b1, p1);
            }
        }
    }
}

/// Whether the bytes begin with `prefix`.
pub fn begins_with(s: &[u8], prefix: &[u8]) -> (r: bool)
    ensures
        r == has_prefix(s@, prefix@),
{
    if s.len() < prefix.len() {
        return false;
    }
    let mut i: usize = 0;
    while i < prefix.len()
        invariant
            prefix@.len() <= s@.len(),
            i <= prefix@.len(),
            forall|j: int| 0 <= j < i ==> s@[j] == prefix@[j],
        decreases prefix@.len() - i,
    {
        if s[i] != prefix[i] {
            assert(s@.take(prefix@.len() as int)[i as int] != prefix@[i as int]);
            return false;
        }
        i = i + 1;
    }
    assert(s@.take(prefix@.len() as int) =~= prefix@);
    true
}

} // verus!
