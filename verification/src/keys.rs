//! Totally ordered map keys: strings ordered by code point, and pairs of
//! strings ordered lexicographically.
use vstd::prelude::*;

verus! {

/// The outcome of comparing two keys.
pub enum KeyOrder {
    Less,
    Equal,
    Greater,
}

/// Lexicographic order on character sequences, comparing characters by code
/// point (which is the order of their UTF-8 encodings as bytes).
pub open spec fn chars_lt(a: Seq<char>, b: Seq<char>) -> bool
    decreases a.len(),
{
    if a.len() == 0 {
        b.len() > 0
    } else if b.len() == 0 {
        false
    } else if a[0] != b[0] {
        (a[0] as int) < (b[0] as int)
    } else {
        chars_lt(a.drop_first(), b.drop_first())
    }
}

pub proof fn lemma_chars_lt_irreflexive(a: Seq<char>)
    ensures
        !chars_lt(a, a),
    decreases a.len(),
{
    if a.len() > 0 {
        lemma_chars_lt_irreflexive(a.drop_first());
    }
}

pub proof fn lemma_chars_lt_transitive(a: Seq<char>, b: Seq<char>, c: Seq<char>)
    requires
        chars_lt(a, b),
        chars_lt(b, c),
    ensures
        chars_lt(a, c),
    decreases a.len(),
{
    if a.len() > 0 && b.len() > 0 && c.len() > 0 {
        if a[0] == b[0] && b[0] == c[0] {
            lemma_chars_lt_transitive(a.drop_first(), b.drop_first(), c.drop_first());
        }
    }
}

pub proof fn lemma_chars_lt_total(a: Seq<char>, b: Seq<char>)
    ensures
        a == b || chars_lt(a, b) || chars_lt(b, a),
    decreases a.len(),
{
    if a.len() == 0 && b.len() == 0 {
        assert(a =~= b);
    } else if a.len() > 0 && b.len() > 0 && a[0] == b[0] {
        lemma_chars_lt_total(a.drop_first(), b.drop_first());
        if a.drop_first() == b.drop_first() {
            assert(a.drop_first().len() == b.drop_first().len());
            assert(a.len() == b.len());
            assert forall|i: int| 0 <= i < a.len() implies a[i] == b[i] by {
                if i > 0 {
                    assert(a[i] == a.drop_first()[i - 1]);
                    assert(b[i] == b.drop_first()[i - 1]);
                    assert(a.drop_first()[i - 1] == b.drop_first()[i - 1]);
                } else {
                    assert(a[0] == b[0]);
                }
            }
            assert(a =~= b);
        }
    } else if a.len() > 0 && b.len() > 0 {
        let x = a[0] as int;
        let y = b[0] as int;
        assert(x != y);
    }
}

/// Comparing the suffixes after a common prefix gives the same answer as
/// comparing the whole sequences.
pub proof fn lemma_chars_lt_skip(a: Seq<char>, b: Seq<char>, i: int)
    requires
        0 <= i <= a.len(),
        i <= b.len(),
        a.take(i) == b.take(i),
    ensures
        chars_lt(a, b) == chars_lt(a.skip(i), b.skip(i)),
    decreases i,
{
    if i > 0 {
        assert(a[0] == a.take(i)[0]);
        assert(b[0] == b.take(i)[0]);
        let a1 = a.drop_first();
        let b1 = b.drop_first();
        assert(a1.take(i - 1) =~= a.take(i).drop_first());
        assert(b1.take(i - 1) =~= b.take(i).drop_first());
        lemma_chars_lt_skip(a1, b1, i - 1);
        assert(a1.skip(i - 1) =~= a.skip(i));
        assert(b1.skip(i - 1) =~= b.skip(i));
    } else {
        assert(a.skip(0) =~= a);
        assert(b.skip(0) =~= b);
    }
}

/// Compares two strings by code point, as `Ord` on `String` does.
pub fn compare_strings(a: &String, b: &String) -> (r: KeyOrder)
    ensures
        (r is Less) == chars_lt(a@, b@),
        (r is Equal) == (a@ == b@),
        (r is Greater) == chars_lt(b@, a@),
{
    compare_strs(a.as_str(), b.as_str())
}

/// Compares two string slices by code point, as `Ord` on `str` does.
pub fn compare_strs(a: &str, b: &str) -> (r: KeyOrder)
    ensures
        (r is Less) == chars_lt(a@, b@),
        (r is Equal) == (a@ == b@),
        (r is Greater) == chars_lt(b@, a@),
{
    let sa = a;
    let sb = b;
    let la = sa.unicode_len();
    let lb = sb.unicode_len();
    let mut i: usize = 0;
    while i < la && i < lb
        invariant
            sa@ == a@,
            sb@ == b@,
            la == a@.len(),
            lb == b@.len(),
            i <= la,
            i <= lb,
            a@.take(i as int) == b@.take(i as int),
        decreases la - i,
    {
        let ca = sa.get_char(i);
        let cb = sb.get_char(i);
        if ca != cb {
            proof {
                lemma_chars_lt_skip(a@, b@, i as int);
                lemma_chars_lt_skip(b@, a@, i as int);
                assert(a@.skip(i as int)[0] == ca);
                assert(b@.skip(i as int)[0] == cb);
                let x = ca as int;
                let y = cb as int;
                assert(x != y);
                assert(a@[i as int] != b@[i as int]);
            }
            if (ca as u32) < (cb as u32) {
                return KeyOrder::Less;
            } else {
                return KeyOrder::Greater;
            }
        }
        proof {
            assert(a@.take(i + 1) =~= a@.take(i as int).push(ca));
            assert(b@.take(i + 1) =~= b@.take(i as int).push(cb));
        }
        i = i + 1;
    }
    proof {
        lemma_chars_lt_skip(a@, b@, i as int);
        lemma_chars_lt_skip(b@, a@, i as int);
        lemma_chars_lt_irreflexive(a@);
    }
    if la == lb {
        proof {
            assert(a@ =~= a@.take(i as int));
            assert(b@ =~= b@.take(i as int));
        }
        KeyOrder::Equal
    } else if la < lb {
        proof {
            assert(a@ =~= a@.take(i as int));
        }
        KeyOrder::Less
    } else {
        proof {
            assert(b@ =~= b@.take(i as int));
        }
        KeyOrder::Greater
    }
}

/// A key type with a strict total order on its view, and the means to compare
/// and copy keys at run time.
pub trait OrderedKey: View + Sized {
    spec fn key_lt(a: Self::V, b: Self::V) -> bool;

    proof fn lemma_key_lt_irreflexive(a: Self::V)
        ensures
            !Self::key_lt(a, a),
    ;

    proof fn lemma_key_lt_transitive(a: Self::V, b: Self::V, c: Self::V)
        requires
            Self::key_lt(a, b),
            Self::key_lt(b, c),
        ensures
            Self::key_lt(a, c),
    ;

    proof fn lemma_key_lt_total(a: Self::V, b: Self::V)
        ensures
            a == b || Self::key_lt(a, b) || Self::key_lt(b, a),
    ;

    fn compare_keys(&self, other: &Self) -> (r: KeyOrder)
        ensures
            (r is Less) == Self::key_lt(self@, other@),
            (r is Equal) == (self@ == other@),
            (r is Greater) == Self::key_lt(other@, self@),
    ;

    fn clone_key(&self) -> (r: Self)
        ensures
            r@ == self@,
    ;
}

impl OrderedKey for String {
    open spec fn key_lt(a: Seq<char>, b: Seq<char>) -> bool {
        chars_lt(a, b)
    }

    proof fn lemma_key_lt_irreflexive(a: Seq<char>) {
        lemma_chars_lt_irreflexive(a);
    }

    proof fn lemma_key_lt_transitive(a: Seq<char>, b: Seq<char>, c: Seq<char>) {
        lemma_chars_lt_transitive(a, b, c);
    }

    proof fn lemma_key_lt_total(a: Seq<char>, b: Seq<char>) {
        lemma_chars_lt_total(a, b);
    }

    fn compare_keys(&self, other: &Self) -> (r: KeyOrder) {
        compare_strings(self, other)
    }

    fn clone_key(&self) -> (r: Self) {
        self.clone()
    }
}

/// Pairs of strings, ordered by their first component and then their second,
/// as `Ord` on tuples does.
pub open spec fn pair_lt(a: (Seq<char>, Seq<char>), b: (Seq<char>, Seq<char>)) -> bool {
    chars_lt(a.0, b.0) || (a.0 == b.0 && chars_lt(a.1, b.1))
}

impl OrderedKey for (String, String) {
    open spec fn key_lt(a: (Seq<char>, Seq<char>), b: (Seq<char>, Seq<char>)) -> bool {
        pair_lt(a, b)
    }

    proof fn lemma_key_lt_irreflexive(a: (Seq<char>, Seq<char>)) {
        lemma_chars_lt_irreflexive(a.0);
        lemma_chars_lt_irreflexive(a.1);
    }

    proof fn lemma_key_lt_transitive(
        a: (Seq<char>, Seq<char>),
        b: (Seq<char>, Seq<char>),
        c: (Seq<char>, Seq<char>),
    ) {
        if chars_lt(a.0, b.0) && chars_lt(b.0, c.0) {
            lemma_chars_lt_transitive(a.0, b.0, c.0);
        } else if chars_lt(a.1, b.1) && chars_lt(b.1, c.1) {
            lemma_chars_lt_transitive(a.1, b.1, c.1);
        }
    }

    proof fn lemma_key_lt_total(a: (Seq<char>, Seq<char>), b: (Seq<char>, Seq<char>)) {
        lemma_chars_lt_total(a.0, b.0);
        lemma_chars_lt_total(a.1, b.1);
    }

    fn compare_keys(&self, other: &Self) -> (r: KeyOrder) {
        proof {
            lemma_chars_lt_irreflexive(self.0@);
            lemma_chars_lt_irreflexive(self.1@);
        }
        match compare_strings(&self.0, &other.0) {
            KeyOrder::Less => {
                proof {
                    if chars_lt(other.0@, self.0@) {
                        lemma_chars_lt_transitive(self.0@, other.0@, self.0@);
                    }
                }
                KeyOrder::Less
            },
            KeyOrder::Greater => {
                proof {
                    if chars_lt(self.0@, other.0@) {
                        lemma_chars_lt_transitive(self.0@, other.0@, self.0@);
                    }
                }
                KeyOrder::Greater
            },
            KeyOrder::Equal => {
                let r = compare_strings(&self.1, &other.1);
                proof {
                    if chars_lt(self.1@, other.1@) && chars_lt(other.1@, self.1@) {
                        lemma_chars_lt_transitive(self.1@, other.1@, self.1@);
                    }
                }
                r
            },
        }
    }

    fn clone_key(&self) -> (r: Self) {
        (self.0.clone(), self.1.clone())
    }
}

/// The keys ascend strictly: no key occurs twice and each is below the next.
pub open spec fn sorted_strict<K: OrderedKey>(s: Seq<K::V>) -> bool {
    forall|i: int, j: int| 0 <= i < j < s.len() ==> K::key_lt(s[i], s[j])
}

/// Two strictly ascending sequences with the same elements are equal.
pub proof fn lemma_sorted_strict_unique<K: OrderedKey>(a: Seq<K::V>, b: Seq<K::V>)
    requires
        sorted_strict::<K>(a),
        sorted_strict::<K>(b),
        a.to_set() == b.to_set(),
    ensures
        a == b,
    decreases a.len(),
{
    if a.len() == 0 {
        if b.len() > 0 {
            assert(b.to_set().contains(b[0]));
        }
        assert(a =~= b);
    } else if b.len() == 0 {
        assert(a.to_set().contains(a[0]));
    } else {
        assert(a.to_set().contains(a[0]));
        assert(b.to_set().contains(b[0]));
        let j = choose|j: int| 0 <= j < b.len() && b[j] == a[0];
        let i = choose|i: int| 0 <= i < a.len() && a[i] == b[0];
        if j > 0 {
            assert(K::key_lt(b[0], b[j]));
            if i > 0 {
                assert(K::key_lt(a[0], a[i]));
                K::lemma_key_lt_transitive(a[0], a[i], a[0]);
            }
            K::lemma_key_lt_irreflexive(a[0]);
        }
        assert(a[0] == b[0]);
        let a1 = a.drop_first();
        let b1 = b.drop_first();
        assert forall|x: K::V| #[trigger] a1.to_set().contains(x) == b1.to_set().contains(x) by {
            if a1.to_set().contains(x) {
                let k = choose|k: int| 0 <= k < a1.len() && a1[k] == x;
                assert(a[k + 1] == x);
                assert(a.to_set().contains(x));
                let m = choose|m: int| 0 <= m < b.len() && b[m] == x;
                if m == 0 {
                    assert(K::key_lt(a[0], a[k + 1]));
                    K::lemma_key_lt_irreflexive(a[0]);
                }
                assert(b1[m - 1] == x);
            }
            if b1.to_set().contains(x) {
                let k = choose|k: int| 0 <= k < b1.len() && b1[k] == x;
                assert(b[k + 1] == x);
                assert(b.to_set().contains(x));
                let m = choose|m: int| 0 <= m < a.len() && a[m] == x;
                if m == 0 {
                    assert(K::key_lt(b[0], b[k + 1]));
                    K::lemma_key_lt_irreflexive(b[0]);
                }
                assert(a1[m - 1] == x);
            }
        }
        assert(a1.to_set() =~= b1.to_set());
        lemma_sorted_strict_unique::<K>(a1, b1);
        assert(a =~= b1.insert(0, b[0]));
        assert(b =~= b1.insert(0, b[0]));
    }
}

} // verus!
