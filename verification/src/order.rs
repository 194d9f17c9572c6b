//! Lexicographic ordering of strings: the specification of the order, proofs
//! of its basic laws, and a verified three-way comparison of two strings.

use vstd::prelude::*;
use vstd::string::StrSliceExecFns;

verus! {

/// Outcome of comparing two strings.
pub enum StrOrd {
    Less,
    Equal,
    Greater,
}

/// One character precedes another when its Unicode scalar value is smaller.
pub open spec fn char_lt(a: char, b: char) -> bool {
    (a as int) < (b as int)
}

/// Strict lexicographic order on character sequences: a proper prefix comes
/// first, and otherwise the first differing character decides.
pub open spec fn str_lt(a: Seq<char>, b: Seq<char>) -> bool
    decreases a.len(),
{
    if b.len() == 0 {
        false
    } else if a.len() == 0 {
        true
    } else if a[0] != b[0] {
        char_lt(a[0], b[0])
    } else {
        str_lt(a.skip(1), b.skip(1))
    }
}

/// The order is irreflexive: no string comes before itself.
pub proof fn lemma_str_lt_irrefl(a: Seq<char>)
    ensures
        !str_lt(a, a),
    decreases a.len(),
{
    if a.len() > 0 {
        lemma_str_lt_irrefl(a.skip(1));
    }
}

/// The order is transitive.
pub proof fn lemma_str_lt_trans(a: Seq<char>, b: Seq<char>, c: Seq<char>)
    requires
        str_lt(a, b),
        str_lt(b, c),
    ensures
        str_lt(a, c),
    decreases a.len(),
{
    if a.len() > 0 && b.len() > 0 && c.len() > 0 && a[0] == b[0] && b[0] == c[0] {
        lemma_str_lt_trans(a.skip(1), b.skip(1), c.skip(1));
    }
}

/// The order is asymmetric, so two comparable strings are distinct.
pub proof fn lemma_str_lt_asym(a: Seq<char>, b: Seq<char>)
    requires
        str_lt(a, b),
    ensures
        !str_lt(b, a),
        a != b,
{
    if str_lt(b, a) {
        lemma_str_lt_trans(a, b, a);
        lemma_str_lt_irrefl(a);
    }
    if a == b {
        lemma_str_lt_irrefl(a);
    }
}

/// The order is total: distinct strings are comparable one way or the other.
pub proof fn lemma_str_lt_connected(a: Seq<char>, b: Seq<char>)
    requires
        a != b,
    ensures
        str_lt(a, b) || str_lt(b, a),
    decreases a.len(),
{
    if a.len() == 0 {
        if b.len() == 0 {
            assert(a =~= b);
        }
    } else if b.len() == 0 {
    } else if a[0] == b[0] {
        if a.skip(1) =~= b.skip(1) {
            assert(a =~= b) by {
                assert forall|i: int| 0 <= i < a.len() implies a[i] == b[i] by {
                    if i > 0 {
                        assert(a.skip(1)[i - 1] == b.skip(1)[i - 1]);
                    }
                }
            }
        }
        lemma_str_lt_connected(a.skip(1), b.skip(1));
        assert(str_lt(a, b) == str_lt(a.skip(1), b.skip(1)));
        assert(str_lt(b, a) == str_lt(b.skip(1), a.skip(1)));
    } else {
        assert(str_lt(a, b) == char_lt(a[0], b[0]));
        assert(str_lt(b, a) == char_lt(b[0], a[0]));
        assert(char_lt(a[0], b[0]) || char_lt(b[0], a[0]));
    }
}

/// Dropping a common prefix does not change how two strings compare.
pub proof fn lemma_str_lt_skip_prefix(a: Seq<char>, b: Seq<char>, i: int)
    requires
        0 <= i <= a.len(),
        i <= b.len(),
        forall|j: int| 0 <= j < i ==> a[j] == b[j],
    ensures
        str_lt(a, b) == str_lt(a.skip(i), b.skip(i)),
    decreases i,
{
    if i == 0 {
        assert(a.skip(0) =~= a);
        assert(b.skip(0) =~= b);
    } else {
        assert(a[0] == b[0]);
        assert forall|j: int| 0 <= j < i - 1 implies a.skip(1)[j] == b.skip(1)[j] by {
            assert(a[j + 1] == b[j + 1]);
        }
        lemma_str_lt_skip_prefix(a.skip(1), b.skip(1), i - 1);
        assert(a.skip(1).skip(i - 1) =~= a.skip(i));
        assert(b.skip(1).skip(i - 1) =~= b.skip(i));
    }
}

/// A sequence of strings in strictly ascending lexicographic order.
pub open spec fn strictly_ascending(s: Seq<Seq<char>>) -> bool {
    forall|i: int, j: int| 0 <= i < j < s.len() ==> str_lt(s[i], s[j])
}

/// Two strictly ascending sequences over the same set of strings are the
/// same sequence: sortedness makes the enumeration canonical.
pub proof fn lemma_sorted_unique(s1: Seq<Seq<char>>, s2: Seq<Seq<char>>)
    requires
        strictly_ascending(s1),
        strictly_ascending(s2),
        s1.to_set() == s2.to_set(),
    ensures
        s1 == s2,
    decreases s1.len(),
{
    broadcast use vstd::set::group_set_axioms;

    if s1.len() == 0 {
        if s2.len() > 0 {
            assert(s2.contains(s2[0]));
            assert(s1.to_set().contains(s2[0]));
        }
        assert(s1 =~= s2);
    } else if s2.len() == 0 {
        assert(s1.contains(s1[0]));
        assert(s2.to_set().contains(s1[0]));
    } else {
        assert(s1.contains(s1[0]));
        assert(s2.contains(s2[0]));
        assert(s2.to_set().contains(s1[0]));
        let k = choose|k: int| 0 <= k < s2.len() && s2[k] == s1[0];
        assert(s1.to_set().contains(s2[0]));
        let m = choose|m: int| 0 <= m < s1.len() && s1[m] == s2[0];
        if k > 0 {
            assert(str_lt(s2[0], s1[0]));
            if m > 0 {
                assert(str_lt(s1[0], s2[0]));
                lemma_str_lt_asym(s1[0], s2[0]);
            } else {
                lemma_str_lt_irrefl(s1[0]);
            }
        }
        assert(s1[0] == s2[0]);
        let t1 = s1.skip(1);
        let t2 = s2.skip(1);
        assert forall|x: Seq<char>| t1.to_set().contains(x) == t2.to_set().contains(x) by {
            lemma_tail_membership(s1, x);
            lemma_tail_membership(s2, x);
        }
        assert(t1.to_set() =~= t2.to_set());
        assert forall|i: int, j: int| 0 <= i < j < t1.len() implies str_lt(t1[i], t1[j]) by {
            assert(t1[i] == s1[i + 1] && t1[j] == s1[j + 1]);
        }
        assert forall|i: int, j: int| 0 <= i < j < t2.len() implies str_lt(t2[i], t2[j]) by {
            assert(t2[i] == s2[i + 1] && t2[j] == s2[j + 1]);
        }
        lemma_sorted_unique(t1, t2);
        assert forall|i: int| 0 <= i < s1.len() implies s1[i] == s2[i] by {
            if i > 0 {
                assert(t1[i - 1] == t2[i - 1]);
            }
        }
        assert(s1 =~= s2);
    }
}

/// In a strictly ascending sequence, a value is in the tail exactly when it
/// is in the whole sequence and differs from the head.
proof fn lemma_tail_membership(s: Seq<Seq<char>>, x: Seq<char>)
    requires
        strictly_ascending(s),
        s.len() > 0,
    ensures
        s.skip(1).to_set().contains(x) == (s.to_set().contains(x) && x != s[0]),
{
    broadcast use vstd::set::group_set_axioms;

    let t = s.skip(1);
    if t.to_set().contains(x) {
        let k = choose|k: int| 0 <= k < t.len() && t[k] == x;
        assert(s[k + 1] == x);
        assert(s.contains(x));
        assert(str_lt(s[0], s[k + 1]));
        lemma_str_lt_asym(s[0], x);
    }
    if s.to_set().contains(x) && x != s[0] {
        let k = choose|k: int| 0 <= k < s.len() && s[k] == x;
        assert(k > 0);
        assert(t[k - 1] == x);
        assert(t.contains(x));
    }
}

/// Three-way comparison of two strings under the lexicographic order.
pub fn compare_strs(a: &str, b: &str) -> (r: StrOrd)
    ensures
        (r is Less) == str_lt(a@, b@),
        (r is Equal) == (a@ == b@),
        (r is Greater) == str_lt(b@, a@),
{
    let alen: usize = a.unicode_len();
    let blen: usize = b.unicode_len();
    let mut i: usize = 0;
    while i < alen && i < blen
        invariant
            i <= alen,
            i <= blen,
            alen as nat == a@.len(),
            blen as nat == b@.len(),
            forall|j: int| 0 <= j < i ==> a@[j] == b@[j],
        decreases alen - i,
    {
        let ca: char = a.get_char(i);
        let cb: char = b.get_char(i);
        if (ca as u32) < (cb as u32) {
            proof {
                lemma_str_lt_skip_prefix(a@, b@, i as int);
                assert(a@.skip(i as int)[0] == a@[i as int]);
                assert(b@.skip(i as int)[0] == b@[i as int]);
                assert(str_lt(a@, b@));
                lemma_str_lt_asym(a@, b@);
            }
            return StrOrd::Less;
        } else if (cb as u32) < (ca as u32) {
            proof {
                assert forall|j: int| 0 <= j < i implies b@[j] == a@[j] by {
                    assert(a@[j] == b@[j]);
                }
                lemma_str_lt_skip_prefix(b@, a@, i as int);
                assert(a@.skip(i as int)[0] == a@[i as int]);
                assert(b@.skip(i as int)[0] == b@[i as int]);
                assert(str_lt(b@, a@));
                lemma_str_lt_asym(b@, a@);
            }
            return StrOrd::Greater;
        }
        i = i + 1;
    }
    if alen < blen {
        proof {
            lemma_str_lt_skip_prefix(a@, b@, alen as int);
            assert(a@.skip(alen as int).len() == 0);
            assert(b@.skip(alen as int).len() > 0);
            assert(str_lt(a@, b@));
            lemma_str_lt_asym(a@, b@);
        }
        StrOrd::Less
    } else if blen < alen {
        proof {
            assert forall|j: int| 0 <= j < blen implies b@[j] == a@[j] by {
                assert(a@[j] == b@[j]);
            }
            lemma_str_lt_skip_prefix(b@, a@, blen as int);
            assert(b@.skip(blen as int).len() == 0);
            assert(a@.skip(blen as int).len() > 0);
            assert(str_lt(b@, a@));
            lemma_str_lt_asym(b@, a@);
        }
        StrOrd::Greater
    } else {
        proof {
            assert(a@ =~= b@);
            lemma_str_lt_irrefl(a@);
        }
        StrOrd::Equal
    }
}

} // verus!
