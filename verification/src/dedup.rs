//! The graph deduplicator.
//!
//! All canonical edge lines of a run are collapsed into a strictly sorted
//! sequence: each distinct line appears exactly once, in lexicographic
//! order. A strictly sorted sequence is determined by the set of its
//! elements alone, which makes the result independent of scan order and
//! makes deduplication idempotent.

use crate::order::{bytes_eq, lemma_lex_trans, lemma_lex_trichotomy, lex_lt, lex_lt_bytes};
use vstd::prelude::*;

verus! {

/// Strictly ascending in lexicographic order; in particular free of
/// duplicates.
pub open spec fn strict_sorted(s: Seq<Seq<u8>>) -> bool {
    forall|i: int, j: int| 0 <= i < j < s.len() ==> lex_lt(s[i], s[j])
}

/// Insertion of a line into a strictly sorted sequence: before the first
/// larger entry, and not at all when the line is already present.
pub open spec fn insert_line(s: Seq<Seq<u8>>, x: Seq<u8>) -> Seq<Seq<u8>>
    decreases s.len(),
{
    if s.len() == 0 {
        seq![x]
    } else if lex_lt(x, s[0]) {
        seq![x] + s
    } else if x == s[0] {
        s
    } else {
        seq![s[0]] + insert_line(s.drop_first(), x)
    }
}

/// The strictly sorted sequence holding exactly the lines of `s`: the
/// mathematical description of sort-then-unique deduplication.
pub open spec fn deduped(s: Seq<Seq<u8>>) -> Seq<Seq<u8>>
    decreases s.len(),
{
    if s.len() == 0 {
        Seq::empty()
    } else {
        insert_line(deduped(s.drop_last()), s.last())
    }
}

/// Putting one line in front of a sequence adds it to the element set.
proof fn lemma_cons_to_set(h: Seq<u8>, t: Seq<Seq<u8>>)
    ensures
        (seq![h] + t).to_set() == t.to_set().insert(h),
{
    broadcast use vstd::seq_lib::lemma_seq_concat_contains_all_elements;

    assert(seq![h].contains(h)) by {
        assert(seq![h][0] == h);
    }
    assert forall|y: Seq<u8>| seq![h].contains(y) implies y == h by {
        let k = choose|k: int| 0 <= k < seq![h].len() && seq![h][k] == y;
    }
    assert((seq![h] + t).to_set() =~= t.to_set().insert(h));
}

/// Inserting a line adds exactly that line to the element set.
pub proof fn lemma_insert_line_set(s: Seq<Seq<u8>>, x: Seq<u8>)
    ensures
        insert_line(s, x).to_set() == s.to_set().insert(x),
    decreases s.len(),
{
    broadcast use vstd::seq_lib::lemma_seq_empty_contains_nothing;

    if s.len() == 0 {
        assert(seq![x].contains(x)) by {
            assert(seq![x][0] == x);
        }
        assert forall|y: Seq<u8>| seq![x].contains(y) implies y == x by {
            let k = choose|k: int| 0 <= k < seq![x].len() && seq![x][k] == y;
        }
        assert(insert_line(s, x).to_set() =~= s.to_set().insert(x));
    } else if lex_lt(x, s[0]) {
        lemma_cons_to_set(x, s);
        assert(insert_line(s, x) == seq![x] + s);
    } else if x == s[0] {
        assert(s.contains(x)) by {
            assert(s[0] == x);
        }
        assert(insert_line(s, x).to_set() =~= s.to_set().insert(x));
    } else {
        let t = s.drop_first();
        let it = insert_line(t, x);
        lemma_insert_line_set(t, x);
        lemma_cons_to_set(s[0], it);
        lemma_cons_to_set(s[0], t);
        assert(s =~= seq![s[0]] + t);
        assert(insert_line(s, x) == seq![s[0]] + it);
        assert(insert_line(s, x).to_set() =~= s.to_set().insert(x));
    }
}

/// Insertion preserves strict sortedness.
pub proof fn lemma_insert_line_sorted(s: Seq<Seq<u8>>, x: Seq<u8>)
    requires
        strict_sorted(s),
    ensures
        strict_sorted(insert_line(s, x)),
    decreases s.len(),
{
    if s.len() == 0 {
    } else if lex_lt(x, s[0]) {
        let r = seq![x] + s;
        assert forall|i: int, j: int| 0 <= i < j < r.len() implies lex_lt(r[i], r[j]) by {
            if i == 0 {
                if j > 1 {
                    lemma_lex_trans(x, s[0], s[j - 1]);
                }
            }
        }
    } else if x == s[0] {
    } else {
        lemma_lex_trichotomy(x, s[0]);
        let t = s.drop_first();
        assert(strict_sorted(t));
        lemma_insert_line_sorted(t, x);
        lemma_insert_line_set(t, x);
        let it = insert_line(t, x);
        let r = seq![s[0]] + it;
        assert forall|i: int, j: int| 0 <= i < j < r.len() implies lex_lt(r[i], r[j]) by {
            if i == 0 {
                assert(it.contains(it[j - 1]));
                assert(it.to_set().contains(it[j - 1]));
                if it[j - 1] == x {
                    assert(lex_lt(s[0], r[j]));
                } else {
                    assert(t.to_set().contains(it[j - 1]));
                    let k = choose|k: int| 0 <= k < t.len() && t[k] == it[j - 1];
                    assert(lex_lt(s[0], s[k + 1]));
                }
            }
        }
    }
}

/// Deduplication yields a strictly sorted sequence over exactly the input's
/// element set.
pub proof fn lemma_deduped_props(s: Seq<Seq<u8>>)
    ensures
        strict_sorted(deduped(s)),
        deduped(s).to_set() == s.to_set(),
    decreases s.len(),
{
    if s.len() > 0 {
        let t = s.drop_last();
        lemma_deduped_props(t);
        lemma_insert_line_sorted(deduped(t), s.last());
        lemma_insert_line_set(deduped(t), s.last());
        Seq::lemma_to_set_insert_commutes(t, s.last());
        assert(s =~= t + seq![s.last()]);
    }
}

/// Two strictly sorted sequences over the same element set are equal: the
/// deduplicated form of an edge set is canonical.
pub proof fn lemma_sorted_unique(s1: Seq<Seq<u8>>, s2: Seq<Seq<u8>>)
    requires
        strict_sorted(s1),
        strict_sorted(s2),
        s1.to_set() == s2.to_set(),
    ensures
        s1 == s2,
    decreases s1.len(),
{
    if s1.len() == 0 {
        if s2.len() > 0 {
            assert(s2.contains(s2[0]));
            assert(s1.to_set().contains(s2[0]));
            let k = choose|k: int| 0 <= k < s1.len() && s1[k] == s2[0];
        }
        assert(s1 =~= s2);
    } else if s2.len() == 0 {
        assert(s1.contains(s1[0]));
        assert(s2.to_set().contains(s1[0]));
        let k = choose|k: int| 0 <= k < s2.len() && s2[k] == s1[0];
    } else {
        assert(s2.contains(s2[0]));
        assert(s1.to_set().contains(s2[0]));
        let i = choose|i: int| 0 <= i < s1.len() && s1[i] == s2[0];
        assert(s1.contains(s1[0]));
        assert(s2.to_set().contains(s1[0]));
        let j = choose|j: int| 0 <= j < s2.len() && s2[j] == s1[0];
        if i > 0 && j > 0 {
            assert(lex_lt(s1[0], s1[i]));
            assert(lex_lt(s2[0], s2[j]));
            lemma_lex_trichotomy(s1[0], s2[0]);
            assert(false);
        }
        assert(s1[0] == s2[0]);
        let t1 = s1.drop_first();
        let t2 = s2.drop_first();
        assert(strict_sorted(t1));
        assert(strict_sorted(t2));
        assert forall|y: Seq<u8>| t1.to_set().contains(y) implies s1.to_set().contains(y) && y
            != s1[0] by {
            let k = choose|k: int| 0 <= k < t1.len() && t1[k] == y;
            assert(s1[k + 1] == y);
            assert(lex_lt(s1[0], s1[k + 1]));
            lemma_lex_trichotomy(s1[0], y);
        }
        assert forall|y: Seq<u8>| s1.to_set().contains(y) && y != s1[0] implies t1.to_set().contains(
            y,
        ) by {
            let k = choose|k: int| 0 <= k < s1.len() && s1[k] == y;
            assert(t1[k - 1] == y);
            assert(t1.contains(t1[k - 1]));
        }
        assert forall|y: Seq<u8>| t2.to_set().contains(y) implies s2.to_set().contains(y) && y
            != s2[0] by {
            let k = choose|k: int| 0 <= k < t2.len() && t2[k] == y;
            assert(s2[k + 1] == y);
            assert(lex_lt(s2[0], s2[k + 1]));
            lemma_lex_trichotomy(s2[0], y);
        }
        assert forall|y: Seq<u8>| s2.to_set().contains(y) && y != s2[0] implies t2.to_set().contains(
            y,
        ) by {
            let k = choose|k: int| 0 <= k < s2.len() && s2[k] == y;
            assert(t2[k - 1] == y);
            assert(t2.contains(t2[k - 1]));
        }
        assert(t1.to_set() =~= t2.to_set());
        lemma_sorted_unique(t1, t2);
        assert forall|i2: int| 1 <= i2 < s1.len() implies s1[i2] == s2[i2] by {
            assert(t1[i2 - 1] == t2[i2 - 1]);
        }
        assert(s1 =~= s2);
    }
}

/// Law: deduplicating an already deduplicated line sequence changes
/// nothing; running the deduplicator twice equals running it once.
pub proof fn lemma_dedup_idempotent(s: Seq<Seq<u8>>)
    ensures
        deduped(deduped(s)) == deduped(s),
{
    lemma_deduped_props(s);
    lemma_deduped_props(deduped(s));
    lemma_sorted_unique(deduped(deduped(s)), deduped(s));
}

/// Law: deduplication depends only on which lines occur, not on their
/// order or multiplicity.
pub proof fn lemma_dedup_order_independent(s1: Seq<Seq<u8>>, s2: Seq<Seq<u8>>)
    requires
        s1.to_set() == s2.to_set(),
    ensures
        deduped(s1) == deduped(s2),
{
    lemma_deduped_props(s1);
    lemma_deduped_props(s2);
    lemma_sorted_unique(deduped(s1), deduped(s2));
}

/// Case analysis of `insert_line` at the first position `i` whose entry is
/// not below the inserted line.
proof fn lemma_insert_line_at(s: Seq<Seq<u8>>, x: Seq<u8>, i: int)
    requires
        0 <= i <= s.len(),
        forall|k: int| 0 <= k < i ==> lex_lt(s[k], x),
    ensures
        i < s.len() && s[i] == x ==> insert_line(s, x) == s,
        i == s.len() || lex_lt(x, s[i]) ==> insert_line(s, x) == s.take(i) + seq![x] + s.skip(i),
    decreases i,
{
    if i == 0 {
        if s.len() == 0 {
            assert(seq![x] =~= s.take(0) + seq![x] + s.skip(0));
        } else {
            lemma_lex_trichotomy(x, s[0]);
            if lex_lt(x, s[0]) {
                assert((seq![x] + s) =~= s.take(0) + seq![x] + s.skip(0));
            }
        }
    } else {
        let t = s.drop_first();
        lemma_lex_trichotomy(s[0], x);
        lemma_insert_line_at(t, x, i - 1);
        if i < s.len() && s[i] == x {
            assert(t[i - 1] == x);
            assert(seq![s[0]] + t =~= s);
        } else if i == s.len() || lex_lt(x, s[i]) {
            assert(i - 1 == t.len() || lex_lt(x, t[i - 1]));
            assert(seq![s[0]] + (t.take(i - 1) + seq![x] + t.skip(i - 1)) =~= s.take(i) + seq![x]
                + s.skip(i));
        }
    }
}

/// Insert one canonical line into a strictly sorted line sequence, keeping
/// it strictly sorted and ignoring a line that is already present.
pub fn insert_unique(sorted: Vec<Vec<u8>>, line: Vec<u8>) -> (r: Vec<Vec<u8>>)
    ensures
        crate::views(r@) == insert_line(crate::views(sorted@), line@),
{
    let mut sorted = sorted;
    let ghost s = crate::views(sorted@);
    let mut i: usize = 0;
    while i < sorted.len() && lex_lt_bytes(sorted[i].as_slice(), line.as_slice())
        invariant
            i <= sorted@.len(),
            s == crate::views(sorted@),
            forall|k: int| 0 <= k < i ==> lex_lt(s[k], line@),
        decreases sorted@.len() - i,
    {
        i = i + 1;
    }
    proof {
        lemma_insert_line_at(s, line@, i as int);
        if i < s.len() {
            lemma_lex_trichotomy(s[i as int], line@);
        }
    }
    if i < sorted.len() && bytes_eq(sorted[i].as_slice(), line.as_slice()) {
        sorted
    } else {
        sorted.insert(i, line);
        proof {
            assert(crate::views(sorted@) =~= s.take(i as int) + seq![line@] + s.skip(i as int));
        }
        sorted
    }
}

/// Collapse all canonical edge lines of a run into the deduplicated,
/// lexicographically sorted line sequence.
pub fn dedup_lines(lines: Vec<Vec<u8>>) -> (r: Vec<Vec<u8>>)
    ensures
        crate::views(r@) == deduped(crate::views(lines@)),
{
    broadcast use vstd::seq_lib::lemma_seq_concat_contains_all_elements;
    broadcast use vstd::seq_lib::lemma_seq_empty_contains_nothing;

    let ghost all = crate::views(lines@);
    let mut rest = lines;
    let mut out: Vec<Vec<u8>> = Vec::new();
    proof {
        assert(crate::views(rest@) =~= all.take(all.len() as int));
        assert(all.skip(all.len() as int) =~= Seq::<Seq<u8>>::empty());
        assert(crate::views(out@).to_set() =~= all.skip(all.len() as int).to_set());
    }
    while rest.len() > 0
        invariant
            rest@.len() <= all.len(),
            crate::views(rest@) == all.take(rest@.len() as int),
            strict_sorted(crate::views(out@)),
            crate::views(out@).to_set() == all.skip(rest@.len() as int).to_set(),
        decreases rest@.len(),
    {
        let ghost n = rest@.len() as int;
        let ghost prev = crate::views(out@);
        let x = match rest.pop() {
            Some(x) => x,
            None => {
                proof {
                    assert(false);
                }
                Vec::new()
            },
        };
        proof {
            assert(crate::views(rest@) =~= all.take(n).drop_last());
            assert(all.take(n).drop_last() =~= all.take(n - 1));
            assert(x@ == all.take(n)[n - 1]);
        }
        out = insert_unique(out, x);
        proof {
            lemma_insert_line_sorted(prev, x@);
            lemma_insert_line_set(prev, x@);
            assert(x@ == all[n - 1]);
            lemma_cons_to_set(all[n - 1], all.skip(n));
            assert(all.skip(n - 1) =~= seq![all[n - 1]] + all.skip(n));
            assert(crate::views(out@).to_set() =~= all.skip(n - 1).to_set());
        }
    }
    proof {
        assert(all.take(0int).len() == 0);
        assert(all.skip(0int) =~= all);
        lemma_deduped_props(all);
        lemma_sorted_unique(crate::views(out@), deduped(all));
    }
    out
}

} // verus!
