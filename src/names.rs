//! Ordering of names (versions, races): strings compared character by
//! character.
use vstd::prelude::*;

verus! {

/// The characters of `s`.
pub fn chars_of(s: &String) -> (r: Vec<char>)
    ensures
        r@ == s@,
{
    let mut r: Vec<char> = Vec::new();
    for c in it: s.as_str().chars()
        invariant
            r@ == it.seq().take(it.index() as int),
            it.seq() == s@,
    {
        r.push(c);
    }
    r
}

/// `a` comes strictly before `b`: at the first position where they
/// differ, `a` has the smaller character, or `a` is a proper prefix of `b`.
pub open spec fn name_lt(a: Seq<char>, b: Seq<char>) -> bool
    decreases a.len(),
{
    if a.len() == 0 {
        b.len() > 0
    } else if b.len() == 0 {
        false
    } else if a[0] != b[0] {
        (a[0] as int) < (b[0] as int)
    } else {
        name_lt(a.drop_first(), b.drop_first())
    }
}

/// Every name comes strictly before the next.
pub open spec fn strictly_ascending(s: Seq<Seq<char>>) -> bool {
    forall|i: int| 0 <= i < s.len() - 1 ==> name_lt(#[trigger] s[i], s[i + 1])
}

/// The characters of each string.
pub open spec fn names(v: Seq<String>) -> Seq<Seq<char>> {
    v.map_values(|s: String| s@)
}

/// Of two names, exactly one comes first, unless they are equal.
pub proof fn lemma_name_order_total(a: Seq<char>, b: Seq<char>)
    ensures
        a == b || name_lt(a, b) || name_lt(b, a),
        !(name_lt(a, b) && name_lt(b, a)),
        a == b ==> !name_lt(a, b),
    decreases a.len(),
{
    if a.len() > 0 && b.len() > 0 && a[0] == b[0] {
        lemma_name_order_total(a.drop_first(), b.drop_first());
        if a.drop_first() == b.drop_first() {
            assert(a =~= seq![a[0]] + a.drop_first());
            assert(b =~= seq![b[0]] + b.drop_first());
        }
    } else if a.len() == 0 && b.len() == 0 {
        assert(a =~= b);
    } else if a.len() > 0 && b.len() > 0 {
        assert((a[0] as int) != (b[0] as int));
    }
}

/// Compares two names: negative when `a` comes first, zero when equal,
/// positive when `b` comes first.
pub fn compare_names(a: &String, b: &String) -> (r: i8)
    ensures
        r < 0 <==> name_lt(a@, b@),
        r == 0 <==> a@ == b@,
        r > 0 <==> name_lt(b@, a@),
{
    let x = chars_of(a);
    let y = chars_of(b);
    let mut k: usize = 0;
    proof {
        assert(x@.skip(0) =~= x@);
        assert(y@.skip(0) =~= y@);
        lemma_name_order_total(x@, y@);
    }
    while k < x.len() && k < y.len() && x[k] == y[k]
        invariant
            k <= x@.len(),
            k <= y@.len(),
            x@ == a@,
            y@ == b@,
            name_lt(x@, y@) == name_lt(x@.skip(k as int), y@.skip(k as int)),
            name_lt(y@, x@) == name_lt(y@.skip(k as int), x@.skip(k as int)),
            (x@ == y@) == (x@.skip(k as int) == y@.skip(k as int)),
        decreases x@.len() - k,
    {
        let ghost xs = x@.skip(k as int);
        let ghost ys = y@.skip(k as int);
        assert(xs.drop_first() =~= x@.skip(k + 1));
        assert(ys.drop_first() =~= y@.skip(k + 1));
        assert(xs == ys <==> xs.drop_first() == ys.drop_first()) by {
            assert(xs =~= seq![xs[0]] + xs.drop_first());
            assert(ys =~= seq![ys[0]] + ys.drop_first());
        }
        k += 1;
    }
    let ghost xs = x@.skip(k as int);
    let ghost ys = y@.skip(k as int);
    proof {
        lemma_name_order_total(xs, ys);
    }
    if k < x.len() && k < y.len() {
        assert(xs[0] == x@[k as int] && ys[0] == y@[k as int]);
        assert(xs[0] != ys[0]);
        if x[k] < y[k] {
            assert(name_lt(xs, ys));
            -1
        } else {
            assert(name_lt(ys, xs));
            1
        }
    } else if k < y.len() {
        assert(xs.len() == 0 && ys.len() > 0);
        assert(name_lt(xs, ys));
        -1
    } else if k < x.len() {
        assert(ys.len() == 0 && xs.len() > 0);
        assert(name_lt(ys, xs));
        1
    } else {
        assert(xs =~= ys);
        0
    }
}

/// Adds `name` to the strictly ascending `r`, unless it is already there.
fn insert_name(r: &mut Vec<String>, name: &String)
    requires
        strictly_ascending(names(old(r)@)),
    ensures
        strictly_ascending(names(final(r)@)),
        forall|x: Seq<char>|
            names(final(r)@).contains(x) <==> (names(old(r)@).contains(x) || x == name@),
{
    let ghost old_names = names(r@);
    let mut j: usize = r.len();
    while j > 0 && compare_names(name, &r[j - 1]) < 0
        invariant
            j <= r@.len(),
            names(r@) == old_names,
            j < r@.len() ==> name_lt(name@, old_names[j as int]),
        decreases j,
    {
        j -= 1;
    }
    if j > 0 && compare_names(name, &r[j - 1]) == 0 {
        assert(old_names[j - 1] == name@);
        return;
    }
    proof {
        if j > 0 {
            lemma_name_order_total(name@, old_names[j - 1]);
        }
    }
    r.insert(j, name.clone());
    let ghost new_names = names(r@);
    assert(new_names =~= old_names.insert(j as int, name@));
    assert forall|i: int| 0 <= i < new_names.len() - 1 implies name_lt(
        #[trigger] new_names[i],
        new_names[i + 1],
    ) by {
        if i + 1 < j {
            assert(name_lt(old_names[i], old_names[i + 1]));
        } else if i > j {
            assert(name_lt(old_names[i - 1], old_names[i]));
        }
    }
    assert forall|x: Seq<char>| new_names.contains(x) <==> (old_names.contains(x) || x == name@) by {
        if new_names.contains(x) {
            let i = choose|i: int| 0 <= i < new_names.len() && new_names[i] == x;
            if i < j {
                assert(old_names[i] == x);
            } else if i > j {
                assert(old_names[i - 1] == x);
            }
        }
        if old_names.contains(x) {
            let i = choose|i: int| 0 <= i < old_names.len() && old_names[i] == x;
            if i < j {
                assert(new_names[i] == x);
            } else {
                assert(new_names[i + 1] == x);
            }
        }
        if x == name@ {
            assert(new_names[j as int] == x);
        }
    }
}

/// The names of `v` in strictly ascending order, each once.
pub fn sorted_names(v: &Vec<String>) -> (r: Vec<String>)
    ensures
        strictly_ascending(names(r@)),
        forall|x: Seq<char>| names(r@).contains(x) <==> names(v@).contains(x),
{
    let mut r: Vec<String> = Vec::new();
    let mut k: usize = 0;
    while k < v.len()
        invariant
            k <= v@.len(),
            strictly_ascending(names(r@)),
            forall|x: Seq<char>|
                names(r@).contains(x) <==> names(v@.take(k as int)).contains(x),
        decreases v@.len() - k,
    {
        insert_name(&mut r, &v[k]);
        proof {
            let before = names(v@.take(k as int));
            let after = names(v@.take(k + 1));
            assert(after =~= before.push(v@[k as int]@));
            assert forall|x: Seq<char>| after.contains(x) <==> (before.contains(x) || x == v@[k as int]@) by {
                if after.contains(x) {
                    let i = choose|i: int| 0 <= i < after.len() && after[i] == x;
                    if i < before.len() {
                        assert(before[i] == x);
                    }
                }
                if before.contains(x) {
                    let i = choose|i: int| 0 <= i < before.len() && before[i] == x;
                    assert(after[i] == x);
                }
                if x == v@[k as int]@ {
                    assert(after[k as int] == x);
                }
            }
        }
        k += 1;
    }
    assert(v@.take(k as int) =~= v@);
    r
}

} // verus!
