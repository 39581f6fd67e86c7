use vstd::prelude::*;

use crate::chars::{chars_lt, lemma_chars_lt_total, lemma_chars_lt_transitive, str_lt};

verus! {

/// `a` is listed before `b`: a higher tally first, then the smaller key.
pub open spec fn before(a: (Seq<char>, int), b: (Seq<char>, int)) -> bool {
    a.1 > b.1 || (a.1 == b.1 && chars_lt(a.0, b.0))
}

pub open spec fn entry(e: (String, usize)) -> (Seq<char>, int) {
    (e.0@, e.1 as int)
}

/// `es` lists exactly the keys with a positive tally under `f`, once each,
/// with their tallies.
pub open spec fn represents(es: Seq<(String, usize)>, f: spec_fn(Seq<char>) -> int) -> bool {
    &&& forall|i: int, j: int| 0 <= i < j < es.len() ==> es[i].0@ != es[j].0@
    &&& forall|i: int| 0 <= i < es.len() ==> es[i].1 == f(es[i].0@) && f(es[i].0@) > 0
    &&& forall|k: Seq<char>| #[trigger] f(k) > 0 ==> exists|i: int| 0 <= i < es.len() && es[i].0@ == k
}

/// `rows` is the ranking of the positive tallies of `f` cut to `take` rows:
/// each row a key with its tally, in listing order, and every key left out
/// listed after all the rows of a full ranking.
pub open spec fn ranked(rows: Seq<(String, usize)>, f: spec_fn(Seq<char>) -> int, take: int) -> bool {
    &&& rows.len() <= take
    &&& forall|i: int| 0 <= i < rows.len() ==> rows[i].1 == f(rows[i].0@) && f(rows[i].0@) > 0
    &&& forall|i: int, j: int| 0 <= i < j < rows.len() ==> before(entry(rows[i]), entry(rows[j]))
    &&& forall|k: Seq<char>|
        #[trigger] f(k) > 0 && (forall|i: int| 0 <= i < rows.len() ==> rows[i].0@ != k) ==> {
            &&& rows.len() == take
            &&& forall|i: int| 0 <= i < rows.len() ==> before(entry(rows[i]), (k, f(k)))
        }
}

proof fn lemma_before_transitive(a: (Seq<char>, int), b: (Seq<char>, int), c: (Seq<char>, int))
    requires
        before(a, b),
        before(b, c),
    ensures
        before(a, c),
{
    if a.1 == b.1 && b.1 == c.1 {
        lemma_chars_lt_transitive(a.0, b.0, c.0);
    }
}

proof fn lemma_before_total(a: (Seq<char>, int), b: (Seq<char>, int))
    requires
        a.0 != b.0,
    ensures
        before(a, b) || before(b, a),
{
    lemma_chars_lt_total(a.0, b.0);
}

pub proof fn lemma_represents_ext(
    es: Seq<(String, usize)>,
    f: spec_fn(Seq<char>) -> int,
    g: spec_fn(Seq<char>) -> int,
)
    requires
        represents(es, f),
        forall|k: Seq<char>| #[trigger] f(k) == g(k),
    ensures
        represents(es, g),
{
    assert forall|k: Seq<char>| #[trigger] g(k) > 0 implies exists|i: int|
        0 <= i < es.len() && es[i].0@ == k by {
        assert(f(k) > 0);
    }
}

/// Adds `w` to the tally of `key`.
pub(crate) fn add_to_tally(
    es: &mut Vec<(String, usize)>,
    key: String,
    w: usize,
    Ghost(f): Ghost<spec_fn(Seq<char>) -> int>,
)
    requires
        represents(old(es)@, f),
        w > 0,
        0 <= f(key@),
        f(key@) + w <= usize::MAX,
    ensures
        represents(final(es)@, |k: Seq<char>| f(k) + if k == key@ { w as int } else { 0 }),
{
    let mut i: usize = 0;
    while i < es.len()
        invariant
            i <= es@.len(),
            es@ == old(es)@,
            represents(es@, f),
            w > 0,
            0 <= f(key@),
            f(key@) + w <= usize::MAX,
            forall|j: int| 0 <= j < i ==> es@[j].0@ != key@,
        decreases es@.len() - i,
    {
        if es[i].0 == key {
            let ghost g = |k: Seq<char>| f(k) + if k == key@ { w as int } else { 0 };
            let ghost before_es = es@;
            assert(es@[i as int].1 == f(key@));
            let (k, v) = es.remove(i);
            es.insert(i, (k, v + w));
            assert(es@ =~= before_es.update(i as int, (k, (v + w) as usize)));
            assert(es@[i as int].0@ == key@);
            assert forall|j: int| 0 <= j < es@.len() && j != i implies es@[j] == before_es[j] by {}
            assert forall|k2: Seq<char>| #[trigger] g(k2) > 0 implies exists|j: int|
                0 <= j < es@.len() && es@[j].0@ == k2 by {
                assert(g(k2) == f(k2) + if k2 == key@ { w as int } else { 0 });
                if k2 != key@ {
                    assert(f(k2) > 0);
                    let j = choose|j: int| 0 <= j < before_es.len() && before_es[j].0@ == k2;
                    assert(es@[j].0@ == k2);
                } else {
                    assert(es@[i as int].0@ == k2);
                }
            }
            return;
        }
        i = i + 1;
    }
    let ghost g = |k: Seq<char>| f(k) + if k == key@ { w as int } else { 0 };
    let ghost before_es = es@;
    es.push((key, w));
    assert(f(key@) <= 0) by {
        if f(key@) > 0 {
            let j = choose|j: int| 0 <= j < before_es.len() && before_es[j].0@ == key@;
        }
    }
    assert forall|k2: Seq<char>| #[trigger] g(k2) > 0 implies exists|j: int|
        0 <= j < es@.len() && es@[j].0@ == k2 by {
        assert(g(k2) == f(k2) + if k2 == key@ { w as int } else { 0 });
        if k2 != key@ {
            assert(f(k2) > 0);
            let j = choose|j: int| 0 <= j < before_es.len() && before_es[j].0@ == k2;
            assert(es@[j].0@ == k2);
        } else {
            assert(es@[before_es.len() as int].0@ == k2);
        }
    }
}

fn ranks_before(a: &(String, usize), b: &(String, usize)) -> (r: bool)
    ensures
        r == before(entry(*a), entry(*b)),
{
    a.1 > b.1 || (a.1 == b.1 && str_lt(a.0.as_str(), b.0.as_str()))
}

/// The position of the entry listed first.
fn best_index(es: &Vec<(String, usize)>) -> (b: usize)
    requires
        es@.len() > 0,
        forall|i: int, j: int| 0 <= i < j < es@.len() ==> es@[i].0@ != es@[j].0@,
    ensures
        b < es@.len(),
        forall|j: int| 0 <= j < es@.len() && j != b ==> before(entry(es@[b as int]), entry(#[trigger] es@[j])),
{
    let mut b: usize = 0;
    let mut i: usize = 1;
    while i < es.len()
        invariant
            b < i <= es@.len(),
            forall|i: int, j: int| 0 <= i < j < es@.len() ==> es@[i].0@ != es@[j].0@,
            forall|j: int| 0 <= j < i && j != b ==> before(entry(es@[b as int]), entry(#[trigger] es@[j])),
        decreases es@.len() - i,
    {
        if ranks_before(&es[i], &es[b]) {
            proof {
                assert forall|j: int| 0 <= j < i + 1 && j != i implies before(entry(es@[i as int]), entry(#[trigger] es@[j])) by {
                    if j != b {
                        lemma_before_transitive(entry(es@[i as int]), entry(es@[b as int]), entry(es@[j]));
                    }
                }
            }
            b = i;
        } else {
            proof {
                lemma_before_total(entry(es@[i as int]), entry(es@[b as int]));
            }
        }
        i = i + 1;
    }
    b
}

/// Lists the entries of `es` by descending tally, ties by ascending key, and
/// keeps the first `take` of them.
pub(crate) fn rank(es: Vec<(String, usize)>, take: usize, Ghost(f): Ghost<spec_fn(Seq<char>) -> int>) -> (rows: Vec<(String, usize)>)
    requires
        represents(es@, f),
    ensures
        ranked(rows@, f, take as int),
{
    let mut rest = es;
    let mut rows: Vec<(String, usize)> = Vec::new();
    while rows.len() < take && rest.len() > 0
        invariant
            rows@.len() <= take,
            forall|i: int, j: int| 0 <= i < j < rest@.len() ==> rest@[i].0@ != rest@[j].0@,
            forall|i: int| 0 <= i < rest@.len() ==> #[trigger] rest@[i].1 == f(rest@[i].0@) && f(rest@[i].0@) > 0,
            forall|i: int| 0 <= i < rows@.len() ==> #[trigger] rows@[i].1 == f(rows@[i].0@) && f(rows@[i].0@) > 0,
            forall|k: Seq<char>| #[trigger] f(k) > 0 ==> (exists|i: int| 0 <= i < rest@.len() && rest@[i].0@ == k)
                || (exists|i: int| 0 <= i < rows@.len() && rows@[i].0@ == k),
            forall|i: int, j: int| 0 <= i < j < rows@.len() ==> before(entry(rows@[i]), entry(rows@[j])),
            forall|i: int, j: int| 0 <= i < rows@.len() && 0 <= j < rest@.len() ==> before(entry(rows@[i]), entry(rest@[j])),
        decreases rest@.len(),
    {
        let b = best_index(&rest);
        let ghost old_rest = rest@;
        let ghost old_rows = rows@;
        let e = rest.remove(b);
        rows.push(e);
        proof {
            assert forall|j: int| 0 <= j < rest@.len() implies #[trigger] rest@[j] == old_rest[if j < b { j } else { j + 1 }] by {}
            assert forall|k: Seq<char>| #[trigger] f(k) > 0 implies (exists|i: int| 0 <= i < rest@.len() && rest@[i].0@ == k)
                || (exists|i: int| 0 <= i < rows@.len() && rows@[i].0@ == k) by {
                if exists|i: int| 0 <= i < old_rows.len() && old_rows[i].0@ == k {
                    let i = choose|i: int| 0 <= i < old_rows.len() && old_rows[i].0@ == k;
                    assert(rows@[i].0@ == k);
                } else {
                    let i = choose|i: int| 0 <= i < old_rest.len() && old_rest[i].0@ == k;
                    if i == b {
                        assert(rows@[old_rows.len() as int].0@ == k);
                    } else if i < b {
                        assert(rest@[i].0@ == k);
                    } else {
                        assert(rest@[i - 1].0@ == k);
                    }
                }
            }
        }
    }
    proof {
        assert forall|k: Seq<char>|
            #[trigger] f(k) > 0 && (forall|i: int| 0 <= i < rows@.len() ==> rows@[i].0@ != k) implies {
            &&& rows@.len() == take
            &&& forall|i: int| 0 <= i < rows@.len() ==> before(entry(rows@[i]), (k, f(k)))
        } by {
            let j = choose|j: int| 0 <= j < rest@.len() && rest@[j].0@ == k;
            assert(entry(rest@[j]) == (k, f(k)));
        }
    }
    rows
}

} // verus!
