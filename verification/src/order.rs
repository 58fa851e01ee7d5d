//! Lexicographic order on strings, used to keep the keys of every mapping in a
//! receipt, and of the computed output, sorted and therefore unique.

use vstd::prelude::*;

verus! {

/// Strict lexicographic order on character sequences, comparing Unicode
/// scalar values position by position; a proper prefix sorts first.
pub open spec fn lex_lt(a: Seq<char>, b: Seq<char>) -> bool
    decreases a.len(),
{
    if b.len() == 0 {
        false
    } else if a.len() == 0 {
        true
    } else if (a[0] as u32) < (b[0] as u32) {
        true
    } else if a[0] == b[0] {
        lex_lt(a.drop_first(), b.drop_first())
    } else {
        false
    }
}

/// The keys of a sequence of key-value entries are in strictly increasing
/// lexicographic order (hence unique).
pub open spec fn keys_sorted<T>(entries: Seq<(String, T)>) -> bool {
    forall|i: int, j: int|
        0 <= i < j < entries.len() ==> lex_lt(
            (#[trigger] entries[i]).0@,
            (#[trigger] entries[j]).0@,
        )
}

pub proof fn lemma_lex_lt_trans(a: Seq<char>, b: Seq<char>, c: Seq<char>)
    requires
        lex_lt(a, b),
        lex_lt(b, c),
    ensures
        lex_lt(a, c),
    decreases a.len(),
{
    if a.len() > 0 && b.len() > 0 && c.len() > 0 {
        if a[0] == b[0] && b[0] == c[0] {
            lemma_lex_lt_trans(a.drop_first(), b.drop_first(), c.drop_first());
        }
    }
}

pub proof fn lemma_lex_lt_irrefl(a: Seq<char>)
    ensures
        !lex_lt(a, a),
    decreases a.len(),
{
    if a.len() > 0 {
        lemma_lex_lt_irrefl(a.drop_first());
    }
}

/// Two sequences neither of which sorts strictly before the other are equal.
pub proof fn lemma_lex_lt_connected(a: Seq<char>, b: Seq<char>)
    requires
        !lex_lt(a, b),
        !lex_lt(b, a),
    ensures
        a =~= b,
    decreases a.len(),
{
    if a.len() > 0 && b.len() > 0 {
        vstd::utf8::char_u32_cast(a[0], a[0] as u32);
        vstd::utf8::char_u32_cast(b[0], b[0] as u32);
        assert(a[0] == b[0]);
        lemma_lex_lt_connected(a.drop_first(), b.drop_first());
        assert forall|i: int| 0 <= i < a.len() implies a[i] == b[i] by {
            if i > 0 {
                assert(a[i] == a.drop_first()[i - 1]);
                assert(b[i] == b.drop_first()[i - 1]);
            }
        }
    }
}

proof fn lemma_lex_lt_chain<T>(entries: Seq<(String, T)>, i: int, j: int)
    requires
        forall|k: int|
            0 <= k && k + 1 < entries.len() ==> lex_lt(
                (#[trigger] entries[k]).0@,
                entries[k + 1].0@,
            ),
        0 <= i < j < entries.len(),
    ensures
        lex_lt(entries[i].0@, entries[j].0@),
    decreases j - i,
{
    if i + 1 < j {
        lemma_lex_lt_chain(entries, i, j - 1);
        lemma_lex_lt_trans(entries[i].0@, entries[j - 1].0@, entries[j].0@);
    }
}

/// Adjacent strict order over a whole sequence of entries gives the full
/// pairwise order.
pub proof fn lemma_sorted_from_adjacent<T>(entries: Seq<(String, T)>)
    requires
        forall|k: int|
            0 <= k && k + 1 < entries.len() ==> lex_lt(
                (#[trigger] entries[k]).0@,
                entries[k + 1].0@,
            ),
    ensures
        keys_sorted(entries),
{
    assert forall|i: int, j: int| 0 <= i < j < entries.len() implies lex_lt(
        (#[trigger] entries[i]).0@,
        (#[trigger] entries[j]).0@,
    ) by {
        lemma_lex_lt_chain(entries, i, j);
    }
}

/// Whether one string sorts strictly before another, lexicographically.
pub fn str_lt(a: &str, b: &str) -> (r: bool)
    ensures
        r == lex_lt(a@, b@),
{
    let alen = a.unicode_len();
    let blen = b.unicode_len();
    let mut i: usize = 0;
    proof {
        assert(a@.skip(0) =~= a@);
        assert(b@.skip(0) =~= b@);
    }
    loop
        invariant
            i <= alen,
            i <= blen,
            alen == a@.len(),
            blen == b@.len(),
            lex_lt(a@, b@) == lex_lt(a@.skip(i as int), b@.skip(i as int)),
        decreases alen - i,
    {
        if i == alen {
            return blen > i;
        }
        if i == blen {
            return false;
        }
        let ca = a.get_char(i);
        let cb = b.get_char(i);
        if (ca as u32) < (cb as u32) {
            return true;
        }
        if (ca as u32) > (cb as u32) {
            return false;
        }
        proof {
            vstd::utf8::char_u32_cast(ca, ca as u32);
            vstd::utf8::char_u32_cast(cb, cb as u32);
            assert(ca == cb);
            assert(a@.skip(i as int).drop_first() =~= a@.skip(i as int + 1));
            assert(b@.skip(i as int).drop_first() =~= b@.skip(i as int + 1));
        }
        i = i + 1;
    }
}

} // verus!
