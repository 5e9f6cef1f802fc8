//! Tables from names to values, kept as vectors of pairs.
//! The first entry with a given name is the one a lookup finds.
use vstd::prelude::*;

verus! {

/// The value of the first entry named `name` at or after index `i`.
pub open spec fn table_get_from<V>(t: Seq<(String, V)>, name: Seq<char>, i: int) -> Option<V>
    decreases t.len() - i,
{
    if i < 0 || i >= t.len() {
        None
    } else if t[i].0@ == name {
        Some(t[i].1)
    } else {
        table_get_from(t, name, i + 1)
    }
}

/// The value of the first entry named `name`.
pub open spec fn table_get<V>(t: Seq<(String, V)>, name: Seq<char>) -> Option<V> {
    table_get_from(t, name, 0)
}

/// Whether some entry is named `name`.
pub open spec fn table_has<V>(t: Seq<(String, V)>, name: Seq<char>) -> bool {
    exists|i: int| 0 <= i < t.len() && #[trigger] t[i].0@ == name
}

/// A lookup that finds nothing from `i` on means no entry from `i` on has the name.
pub proof fn lemma_table_get_from_none<V>(t: Seq<(String, V)>, name: Seq<char>, i: int)
    requires
        0 <= i,
    ensures
        table_get_from(t, name, i) is None <==> (forall|j: int|
            i <= j < t.len() ==> #[trigger] t[j].0@ != name),
    decreases t.len() - i,
{
    if i < t.len() {
        lemma_table_get_from_none(t, name, i + 1);
    }
}

/// The lookup finds something exactly when some entry has the name.
pub proof fn lemma_table_get_some<V>(t: Seq<(String, V)>, name: Seq<char>)
    ensures
        table_get(t, name) is Some <==> table_has(t, name),
{
    lemma_table_get_from_none(t, name, 0);
}

/// Finds the index of the first entry named `name`.
pub fn table_position<V>(t: &Vec<(String, V)>, name: &str) -> (r: Option<usize>)
    ensures
        match r {
            Some(i) => i < t.len() && t@[i as int].0@ == name@ && (forall|j: int|
                0 <= j < i ==> #[trigger] t@[j].0@ != name@) && table_get(t@, name@) == Some(
                t@[i as int].1,
            ),
            None => table_get(t@, name@) is None && !table_has(t@, name@),
        },
{
    let mut i: usize = 0;
    while i < t.len()
        invariant
            i <= t.len(),
            forall|j: int| 0 <= j < i ==> #[trigger] t@[j].0@ != name@,
            table_get(t@, name@) == table_get_from(t@, name@, i as int),
        decreases t.len() - i,
    {
        if string_eq_str(&t[i].0, name) {
            return Some(i);
        }
        i = i + 1;
    }
    proof {
        lemma_table_get_from_none(t@, name@, t.len() as int);
        lemma_table_get_some(t@, name@);
    }
    None
}

/// The value of the first entry named `name`.
pub fn table_lookup<'a, V>(t: &'a Vec<(String, V)>, name: &str) -> (r: Option<&'a V>)
    ensures
        match r {
            Some(v) => table_get(t@, name@) == Some(*v),
            None => table_get(t@, name@) is None,
        },
{
    match table_position(t, name) {
        Some(i) => Some(&t[i].1),
        None => None,
    }
}

/// Whether some entry is named `name`.
pub fn table_contains<V>(t: &Vec<(String, V)>, name: &str) -> (r: bool)
    ensures
        r == table_has(t@, name@),
        r == table_get(t@, name@) is Some,
{
    proof {
        lemma_table_get_some(t@, name@);
    }
    table_position(t, name).is_some()
}

/// The table after setting `name` to `v`: the first entry with that name is replaced,
/// or the entry is added at the end.
pub open spec fn table_set<V>(t: Seq<(String, V)>, name: String, v: V) -> Seq<(String, V)> {
    if exists|i: int| 0 <= i < t.len() && #[trigger] t[i].0@ == name@ {
        let i = choose|i: int|
            0 <= i < t.len() && #[trigger] t[i].0@ == name@ && forall|j: int|
                0 <= j < i ==> #[trigger] t[j].0@ != name@;
        t.update(i, (t[i].0, v))
    } else {
        t.push((name, v))
    }
}

/// Sets `name` to `v` in the table.
pub fn table_insert<V>(t: &mut Vec<(String, V)>, name: String, v: V)
    ensures
        final(t)@ == table_set(old(t)@, name, v),
{
    match table_position(t, name.as_str()) {
        Some(i) => {
            proof {
                let j = choose|j: int|
                    0 <= j < t@.len() && #[trigger] t@[j].0@ == name@ && forall|k: int|
                        0 <= k < j ==> #[trigger] t@[k].0@ != name@;
                if j < i {
                } else if i < j {
                }
                assert(j == i);
            }
            let key = t[i].0.clone();
            t.set(i, (key, v));
        },
        None => {
            t.push((name, v));
        },
    }
}

/// Equality of a string and a string slice.
pub fn string_eq_str(a: &String, b: &str) -> (r: bool)
    ensures
        r == (a@ == b@),
{
    str_eq(a.as_str(), b)
}

/// Equality of two string slices, character by character.
pub fn str_eq(a: &str, b: &str) -> (r: bool)
    ensures
        r == (a@ == b@),
{
    let n = a.unicode_len();
    if n != b.unicode_len() {
        return false;
    }
    let mut i: usize = 0;
    while i < n
        invariant
            n == a@.len(),
            n == b@.len(),
            i <= n,
            forall|j: int| 0 <= j < i ==> a@[j] == b@[j],
        decreases n - i,
    {
        if a.get_char(i) != b.get_char(i) {
            return false;
        }
        i = i + 1;
    }
    assert(a@ =~= b@);
    true
}

/// Whether `v` holds a string equal to `s`.
pub fn strings_contain(v: &Vec<String>, s: &str) -> (r: bool)
    ensures
        r == (exists|i: int| 0 <= i < v.len() && #[trigger] v@[i]@ == s@),
{
    let mut i: usize = 0;
    while i < v.len()
        invariant
            i <= v.len(),
            forall|j: int| 0 <= j < i ==> #[trigger] v@[j]@ != s@,
        decreases v.len() - i,
    {
        if string_eq_str(&v[i], s) {
            return true;
        }
        i = i + 1;
    }
    false
}

/// An entry with a name means a first entry with that name.
pub proof fn lemma_first_index<V>(t: Seq<(String, V)>, name: Seq<char>, w: int)
    requires
        0 <= w < t.len(),
        t[w].0@ == name,
    ensures
        exists|i: int|
            0 <= i <= w && #[trigger] t[i].0@ == name && forall|j: int|
                0 <= j < i ==> #[trigger] t[j].0@ != name,
    decreases w,
{
    if exists|j: int| 0 <= j < w && #[trigger] t[j].0@ == name {
        let j = choose|j: int| 0 <= j < w && #[trigger] t[j].0@ == name;
        lemma_first_index(t, name, j);
    } else {
        assert(forall|j: int| 0 <= j < w ==> #[trigger] t[j].0@ != name);
    }
}

/// Setting a name that is present keeps the length and the set of names.
pub proof fn lemma_table_set_keys<V>(t: Seq<(String, V)>, name: String, v: V, other: Seq<char>)
    requires
        table_has(t, name@),
    ensures
        table_has(table_set(t, name, v), other) == table_has(t, other),
        table_set(t, name, v).len() == t.len(),
{
    let w = choose|j: int| 0 <= j < t.len() && #[trigger] t[j].0@ == name@;
    lemma_first_index(t, name@, w);
    let i = choose|i: int|
        0 <= i < t.len() && #[trigger] t[i].0@ == name@ && forall|j: int|
            0 <= j < i ==> #[trigger] t[j].0@ != name@;
    let u = table_set(t, name, v);
    assert(u == t.update(i, (t[i].0, v)));
    if table_has(t, other) {
        let j = choose|j: int| 0 <= j < t.len() && #[trigger] t[j].0@ == other;
        assert(u[j].0@ == other);
    }
    if table_has(u, other) {
        let j = choose|j: int| 0 <= j < u.len() && #[trigger] u[j].0@ == other;
        assert(t[j].0@ == other);
    }
}

/// The names of a table after setting a name: the old ones and that one.
pub proof fn lemma_table_set_has<V>(t: Seq<(String, V)>, name: String, v: V, other: Seq<char>)
    ensures
        table_has(table_set(t, name, v), other) == (table_has(t, other) || other == name@),
{
    if table_has(t, name@) {
        lemma_table_set_keys(t, name, v, other);
        if other == name@ {
        }
    } else {
        let u = t.push((name, v));
        assert(u[t.len() as int].0@ == name@);
        if table_has(t, other) {
            let j = choose|j: int| 0 <= j < t.len() && #[trigger] t[j].0@ == other;
            assert(u[j].0@ == other);
        }
        if table_has(u, other) {
            let j = choose|j: int| 0 <= j < u.len() && #[trigger] u[j].0@ == other;
            if j < t.len() {
                assert(t[j].0@ == other);
            }
        }
    }
}

/// A lookup that finds a value finds it at some entry with that name.
pub proof fn lemma_table_get_from_index<V>(t: Seq<(String, V)>, name: Seq<char>, i: int)
    requires
        table_get_from(t, name, i) is Some,
    ensures
        exists|j: int|
            0 <= j < t.len() && #[trigger] t[j].0@ == name && Some(t[j].1) == table_get_from(
                t,
                name,
                i,
            ),
    decreases t.len() - i,
{
    if 0 <= i < t.len() && t[i].0@ != name {
        lemma_table_get_from_index(t, name, i + 1);
    }
}


/// Where two tables have the same names and the same values but at one entry, named other
/// than `k`, the lookups of `k` agree from `j` on.
proof fn lemma_get_from_same<V>(t: Seq<(String, V)>, u: Seq<(String, V)>, k: Seq<char>, j: int, i: int)
    requires
        0 <= j,
        t.len() == u.len(),
        forall|m: int| 0 <= m < t.len() ==> #[trigger] u[m].0 == t[m].0,
        forall|m: int| 0 <= m < t.len() && m != i ==> #[trigger] u[m].1 == t[m].1,
        0 <= i < t.len() ==> t[i].0@ != k,
    ensures
        table_get_from(u, k, j) == table_get_from(t, k, j),
    decreases t.len() - j,
{
    if j < t.len() {
        lemma_get_from_same(t, u, k, j + 1, i);
    }
}

/// Looking up from `j` finds what looking up from `i` finds when no entry in between has
/// the name.
proof fn lemma_get_from_skip<V>(t: Seq<(String, V)>, k: Seq<char>, j: int, i: int)
    requires
        0 <= j <= i <= t.len(),
        forall|m: int| j <= m < i ==> #[trigger] t[m].0@ != k,
    ensures
        table_get_from(t, k, j) == table_get_from(t, k, i),
    decreases i - j,
{
    if j < i {
        lemma_get_from_skip(t, k, j + 1, i);
    }
}

/// After setting `name` to `v`, looking `name` up gives `v`, and other lookups are as before.
pub proof fn lemma_table_set_get<V>(t: Seq<(String, V)>, name: String, v: V, k: Seq<char>)
    ensures
        table_get(table_set(t, name, v), k) == (if k == name@ {
            Some(v)
        } else {
            table_get(t, k)
        }),
{
    let u = table_set(t, name, v);
    if exists|i: int| 0 <= i < t.len() && #[trigger] t[i].0@ == name@ {
        let w = choose|i: int| 0 <= i < t.len() && #[trigger] t[i].0@ == name@;
        lemma_first_index(t, name@, w);
        let i = choose|i: int|
            0 <= i < t.len() && #[trigger] t[i].0@ == name@ && forall|j: int|
                0 <= j < i ==> #[trigger] t[j].0@ != name@;
        assert(u == t.update(i, (t[i].0, v)));
        if k == name@ {
            assert forall|m: int| 0 <= m < i implies #[trigger] u[m].0@ != k by {
                assert(u[m] == t[m]);
            }
            lemma_get_from_skip(u, k, 0, i);
        } else {
            lemma_get_from_same(t, u, k, 0, i);
        }
    } else {
        assert(u == t.push((name, v)));
        let n = t.len() as int;
        if k == name@ {
            assert forall|m: int| 0 <= m < n implies #[trigger] u[m].0@ != k by {
                assert(u[m] == t[m]);
            }
            lemma_get_from_skip(u, k, 0, n);
        } else {
            lemma_get_from_prefix(t, u, k, 0);
        }
    }
}

/// A lookup of a name that the added last entry does not have ignores that entry.
proof fn lemma_get_from_prefix<V>(t: Seq<(String, V)>, u: Seq<(String, V)>, k: Seq<char>, j: int)
    requires
        0 <= j <= t.len(),
        u.len() == t.len() + 1,
        forall|m: int| 0 <= m < t.len() ==> #[trigger] u[m] == t[m],
        u[t.len() as int].0@ != k,
    ensures
        table_get_from(u, k, j) == table_get_from(t, k, j),
    decreases t.len() - j,
{
    if j < t.len() {
        lemma_get_from_prefix(t, u, k, j + 1);
    } else {
        assert(table_get_from(u, k, j + 1) == None::<V>);
    }
}


/// The value of the last entry named `k`.
pub open spec fn last_value<V>(es: Seq<(Seq<char>, V)>, k: Seq<char>) -> Option<V>
    decreases es.len(),
{
    if es.len() == 0 {
        None
    } else if es.last().0 == k {
        Some(es.last().1)
    } else {
        last_value(es.drop_last(), k)
    }
}

/// The table `m` is the table `base` after setting the entries `es` in order.
pub open spec fn table_after<V>(m: Seq<(String, V)>, base: Seq<(String, V)>, es: Seq<(Seq<char>, V)>) -> bool {
    forall|k: Seq<char>| #![trigger table_get(m, k)] table_get(m, k) == match last_value(es, k) {
        Some(v) => Some(v),
        None => table_get(base, k),
    }
}

/// Setting one more entry.
pub proof fn lemma_table_after_push<V>(m: Seq<(String, V)>, base: Seq<(String, V)>, es: Seq<(Seq<char>, V)>, name: String, v: V)
    requires
        table_after(m, base, es),
    ensures
        table_after(table_set(m, name, v), base, es.push((name@, v))),
{
    let es2 = es.push((name@, v));
    assert(es2.drop_last() =~= es);
    assert forall|k: Seq<char>| #![trigger table_get(table_set(m, name, v), k)] table_get(table_set(m, name, v), k) == match last_value(es2, k) {
        Some(x) => Some(x),
        None => table_get(base, k),
    } by {
        lemma_table_set_get(m, name, v, k);
        assert(table_get(m, k) == match last_value(es, k) {
            Some(x) => Some(x),
            None => table_get(base, k),
        });
    }
}

/// A table is itself after no entry.
pub proof fn lemma_table_after_empty<V>(m: Seq<(String, V)>)
    ensures
        table_after(m, m, Seq::empty()),
{
}


/// Setting `es2` after `es1` is setting `es1 + es2`.
pub proof fn lemma_table_after_trans<V>(
    m: Seq<(String, V)>,
    mid: Seq<(String, V)>,
    base: Seq<(String, V)>,
    es1: Seq<(Seq<char>, V)>,
    es2: Seq<(Seq<char>, V)>,
)
    requires
        table_after(mid, base, es1),
        table_after(m, mid, es2),
    ensures
        table_after(m, base, es1 + es2),
{
    assert forall|k: Seq<char>| #![trigger table_get(m, k)] table_get(m, k) == match last_value(es1 + es2, k) {
        Some(v) => Some(v),
        None => table_get(base, k),
    } by {
        lemma_last_value_concat(es1, es2, k);
        assert(table_get(mid, k) == match last_value(es1, k) {
            Some(v) => Some(v),
            None => table_get(base, k),
        });
    }
}

/// The last entry for a name among two lists: in the second, else in the first.
pub proof fn lemma_last_value_concat<V>(es1: Seq<(Seq<char>, V)>, es2: Seq<(Seq<char>, V)>, k: Seq<char>)
    ensures
        last_value(es1 + es2, k) == match last_value(es2, k) {
            Some(v) => Some(v),
            None => last_value(es1, k),
        },
    decreases es2.len(),
{
    if es2.len() == 0 {
        assert(es1 + es2 =~= es1);
    } else {
        assert((es1 + es2).drop_last() =~= es1 + es2.drop_last());
        assert((es1 + es2).last() == es2.last());
        lemma_last_value_concat(es1, es2.drop_last(), k);
    }
}


proof fn lemma_get_from_extend<V>(t: Seq<(String, V)>, u: Seq<(String, V)>, k: Seq<char>, i: int)
    requires
        0 <= i,
        t.len() <= u.len(),
        forall|m: int| 0 <= m < t.len() ==> #[trigger] u[m] == t[m],
        table_get_from(t, k, i) is Some,
    ensures
        table_get_from(u, k, i) == table_get_from(t, k, i),
    decreases t.len() - i,
{
    if i < t.len() && t[i].0@ != k {
        lemma_get_from_extend(t, u, k, i + 1);
    }
}

/// A name found in a table is found, with the same value, in any table that extends it.
pub proof fn lemma_table_get_extend<V>(t: Seq<(String, V)>, u: Seq<(String, V)>, k: Seq<char>)
    requires
        t.len() <= u.len(),
        u.subrange(0, t.len() as int) == t,
        table_get(t, k) is Some,
    ensures
        table_get(u, k) == table_get(t, k),
{
    assert forall|m: int| 0 <= m < t.len() implies #[trigger] u[m] == t[m] by {
        assert(u.subrange(0, t.len() as int)[m] == u[m]);
    }
    lemma_get_from_extend(t, u, k, 0);
}

/// A name not found in a table is found with the value of a new entry at its end.
pub proof fn lemma_table_get_push_new<V>(t: Seq<(String, V)>, name: String, v: V)
    requires
        table_get(t, name@) is None,
    ensures
        table_get(t.push((name, v)), name@) == Some(v),
{
    let u = t.push((name, v));
    lemma_table_get_from_none(t, name@, 0);
    assert forall|m: int| 0 <= m < t.len() implies #[trigger] u[m].0@ != name@ by {
        assert(u[m] == t[m]);
    }
    lemma_get_from_skip(u, name@, 0, t.len() as int);
}

/// A new entry with another name leaves the value of a name as it was.
pub proof fn lemma_table_get_other_push<V>(t: Seq<(String, V)>, name: String, v: V, k: Seq<char>)
    requires
        name@ != k,
    ensures
        table_get(t.push((name, v)), k) == table_get(t, k),
{
    let u = t.push((name, v));
    assert forall|m: int| 0 <= m < t.len() implies #[trigger] u[m] == t[m] by {}
    lemma_get_from_prefix(t, u, k, 0);
}
} // verus!
