//! Names in alphabetical order.

use crate::text::chars_of;
use vstd::prelude::*;

verus! {

/// Whether a text precedes another one: by the first character in which they differ, and the
/// shorter text first.
pub open spec fn precedes(a: Seq<char>, b: Seq<char>) -> bool
    decreases a.len(),
{
    if b.len() == 0 {
        false
    } else if a.len() == 0 {
        true
    } else if a[0] != b[0] {
        a[0] < b[0]
    } else {
        precedes(a.drop_first(), b.drop_first())
    }
}

/// Of two texts that differ, exactly one precedes the other.
pub proof fn law_order_total(a: Seq<char>, b: Seq<char>)
    ensures
        a == b ==> !precedes(a, b),
        a != b ==> precedes(a, b) != precedes(b, a),
    decreases a.len(),
{
    if a.len() > 0 && b.len() > 0 && a[0] == b[0] {
        law_order_total(a.drop_first(), b.drop_first());
        if a.drop_first() == b.drop_first() {
            assert(a =~= seq![a[0]] + a.drop_first());
            assert(b =~= seq![b[0]] + b.drop_first());
        }
    } else if a.len() == 0 && b.len() == 0 {
        assert(a =~= b);
    }
}

/// The order is transitive.
pub proof fn law_order_transitive(a: Seq<char>, b: Seq<char>, c: Seq<char>)
    requires
        precedes(a, b),
        precedes(b, c),
    ensures
        precedes(a, c),
    decreases a.len(),
{
    if a.len() > 0 && a[0] == b[0] && b[0] == c[0] {
        law_order_transitive(a.drop_first(), b.drop_first(), c.drop_first());
    }
}

fn chars_precede(a: &[char], b: &[char]) -> (r: bool)
    ensures
        r == precedes(a@, b@),
{
    let mut i: usize = 0;
    assert(a@.skip(0) =~= a@ && b@.skip(0) =~= b@);
    while i < a.len() && i < b.len()
        invariant
            i <= a@.len(),
            i <= b@.len(),
            precedes(a@, b@) == precedes(a@.skip(i as int), b@.skip(i as int)),
        decreases a@.len() - i,
    {
        let (x, y) = (a[i], b[i]);
        proof {
            assert(a@.skip(i as int)[0] == x);
            assert(b@.skip(i as int)[0] == y);
            assert(a@.skip(i as int).drop_first() =~= a@.skip(i as int + 1));
            assert(b@.skip(i as int).drop_first() =~= b@.skip(i as int + 1));
        }
        if x != y {
            return x < y;
        }
        i += 1;
    }
    i < b.len()
}

/// Whether the names stand in order, each of them once.
pub open spec fn in_order(names: Seq<String>) -> bool {
    forall|i: int, j: int|
        0 <= i < j < names.len() ==> precedes((#[trigger] names[i])@, (#[trigger] names[j])@)
}

/// Whether a name is among names.
pub open spec fn among(names: Seq<String>, name: Seq<char>) -> bool {
    exists|i: int| 0 <= i < names.len() && (#[trigger] names[i])@ == name
}

/// Put a name that is not there yet in its place.
fn insert_name(names: &mut Vec<String>, name: String)
    requires
        in_order(old(names)@),
        !among(old(names)@, name@),
        old(names)@.len() < usize::MAX,
    ensures
        in_order(final(names)@),
        final(names)@.len() == old(names)@.len() + 1,
        forall|n: Seq<char>|
            #![trigger among(final(names)@, n)]
            among(final(names)@, n) <==> among(old(names)@, n) || n == name@,
{
    let ghost before = names@;
    let chars = chars_of(&name);
    let mut k: usize = 0;
    while k < names.len() && chars_precede(&chars_of(&names[k]), &chars)
        invariant
            k <= names@.len(),
            names@ == before,
            chars@ == name@,
            forall|i: int| 0 <= i < k ==> precedes((#[trigger] names@[i])@, name@),
        decreases names@.len() - k,
    {
        k += 1;
    }
    let ghost text = name@;
    proof {
        assert forall|j: int| k <= j < before.len() implies precedes(
            text,
            (#[trigger] before[j])@,
        ) by {
            assert(before[k as int]@ != text);
            law_order_total(before[k as int]@, text);
            if j > k {
                law_order_transitive(text, before[k as int]@, before[j]@);
            }
        }
    }
    names.insert(k, name);
    proof {
        let after = names@;
        assert forall|i: int, j: int| 0 <= i < j < after.len() implies precedes(
            (#[trigger] after[i])@,
            (#[trigger] after[j])@,
        ) by {
            if i < k && j < k {
                assert(after[i] == before[i] && after[j] == before[j]);
            } else if i < k && j > k {
                assert(after[i] == before[i] && after[j] == before[j - 1]);
            } else if i > k {
                assert(after[i] == before[i - 1] && after[j] == before[j - 1]);
            } else if i == k {
                assert(after[j] == before[j - 1]);
            }
        }
        assert forall|n: Seq<char>|
            #![trigger among(after, n)]
            among(after, n) <==> among(before, n) || n == text by {
            if among(before, n) {
                let i = choose|i: int| 0 <= i < before.len() && (#[trigger] before[i])@ == n;
                if i < k {
                    assert(after[i]@ == n);
                } else {
                    assert(after[i + 1]@ == n);
                }
            }
            if n == text {
                assert(after[k as int]@ == n);
            }
            if among(after, n) {
                let i = choose|i: int| 0 <= i < after.len() && (#[trigger] after[i])@ == n;
                if i < k {
                    assert(before[i]@ == n);
                } else if i > k {
                    assert(before[i - 1]@ == n);
                }
            }
        }
    }
}

/// Sort names that are all different.
pub fn sort_names(list: &Vec<String>) -> (r: Vec<String>)
    requires
        forall|i: int, j: int|
            0 <= i < j < list@.len() ==> (#[trigger] list@[i])@ != (#[trigger] list@[j])@,
    ensures
        in_order(r@),
        r@.len() == list@.len(),
        forall|n: Seq<char>|
            #![trigger among(r@, n)]
            #![trigger among(list@, n)]
            among(r@, n) <==> among(list@, n),
{
    let mut out: Vec<String> = Vec::new();
    let mut i: usize = 0;
    while i < list.len()
        invariant
            i <= list@.len(),
            out@.len() == i,
            in_order(out@),
            forall|i: int, j: int|
                0 <= i < j < list@.len() ==> (#[trigger] list@[i])@ != (#[trigger] list@[j])@,
            forall|n: Seq<char>|
                #![trigger among(out@, n)]
                #![trigger among(list@.take(i as int), n)]
                among(out@, n) <==> among(list@.take(i as int), n),
        decreases list@.len() - i,
    {
        let name = list[i].clone();
        let ghost done = list@.take(i as int);
        let ghost more = list@.take(i as int + 1);
        let ghost text = name@;
        proof {
            if among(done, text) {
                let j = choose|j: int| 0 <= j < done.len() && (#[trigger] done[j])@ == text;
                assert(list@[j]@ == list@[i as int]@);
                assert(false);
            }
            assert(!among(out@, text));
        }
        insert_name(&mut out, name);
        proof {
            assert forall|n: Seq<char>|
                #![trigger among(more, n)]
                among(more, n) <==> among(done, n) || n == text by {
                if among(done, n) {
                    let j = choose|j: int| 0 <= j < done.len() && (#[trigger] done[j])@ == n;
                    assert(more[j]@ == n);
                }
                if n == text {
                    assert(more[i as int]@ == n);
                }
                if among(more, n) {
                    let j = choose|j: int| 0 <= j < more.len() && (#[trigger] more[j])@ == n;
                    if j < i {
                        assert(done[j]@ == n);
                    }
                }
            }
        }
        i += 1;
    }
    assert(list@.take(i as int) =~= list@);
    out
}

/// The order of names goes by their first difference: the smaller character comes first, and a name
/// comes before those that it is the beginning of.
pub proof fn law_order_by_first_difference(start: Seq<char>, a: Seq<char>, b: Seq<char>)
    ensures
        a.len() > 0 && b.len() > 0 && a[0] < b[0] ==> precedes(
            start + a,
            start + b,
        ),
        b.len() > 0 ==> precedes(start, start + b),
        !precedes(start, start),
        !precedes(start + a, start),
    decreases start.len(),
{
    if start.len() > 0 {
        law_order_by_first_difference(start.drop_first(), a, b);
        assert((start + a).drop_first() =~= start.drop_first() + a);
        assert((start + b).drop_first() =~= start.drop_first() + b);
        assert((start + a)[0] == start[0] && (start + b)[0] == start[0]);
    } else {
        assert(start + a =~= a);
        assert(start + b =~= b);
    }
}

}
