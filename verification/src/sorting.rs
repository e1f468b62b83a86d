//! Putting the properties of an instance into the order of their names.

use vstd::prelude::*;
use crate::order::{
    lemma_lex_asymmetric, lemma_lex_irreflexive, lemma_lex_total, lemma_lex_transitive, lex_less,
    precedes,
};
use crate::value::{property_models, Property, PropertyModel, ValueModel};

verus! {

/// The names of the properties of `s`, one for one.
pub open spec fn names_of(s: Seq<PropertyModel>) -> Seq<Seq<char>> {
    Seq::new(s.len(), |i: int| s[i].name)
}

/// Whether each string of `names` comes before all that follow it.
pub open spec fn strictly_ascending(names: Seq<Seq<char>>) -> bool {
    forall|i: int, j: int|
        0 <= i < j < names.len() ==> lex_less(#[trigger] names[i], #[trigger] names[j])
}

/// Whether `s` lists the entries of `m`: each entry once, and nothing else.
pub open spec fn lists(s: Seq<PropertyModel>, m: Map<Seq<char>, ValueModel>) -> bool {
    &&& names_of(s).no_duplicates()
    &&& forall|name: Seq<char>| names_of(s).contains(name) <==> m.contains_key(name)
    &&& forall|i: int| 0 <= i < s.len() ==> m[(#[trigger] s[i]).name] == s[i].value
}

/// Whether the names of `s` strictly ascend.
pub open spec fn ascending(s: Seq<PropertyModel>) -> bool {
    strictly_ascending(names_of(s))
}

/// The entries of `m` in the ascending order of their names.
pub open spec fn sorted_entries(m: Map<Seq<char>, ValueModel>) -> Seq<PropertyModel> {
    choose|s: Seq<PropertyModel>| lists(s, m) && ascending(s)
}

/// A map whose entries can be listed is finite.
pub proof fn lemma_listed_is_finite(s: Seq<PropertyModel>, m: Map<Seq<char>, ValueModel>)
    requires
        lists(s, m),
    ensures
        m.dom().finite(),
{
    vstd::seq_lib::seq_to_set_is_finite(names_of(s));
    assert(m.dom() =~= names_of(s).to_set());
}

/// Strictly ascending strings are pairwise different.
pub proof fn lemma_ascending_distinct(names: Seq<Seq<char>>)
    requires
        strictly_ascending(names),
    ensures
        names.no_duplicates(),
{
    assert forall|i: int, j: int| 0 <= i < names.len() && 0 <= j < names.len() && i != j implies names[i]
        != names[j] by {
        lemma_lex_irreflexive(names[i]);
        if i < j {
            assert(lex_less(names[i], names[j]));
        } else {
            assert(lex_less(names[j], names[i]));
        }
    }
}

/// What is left of a strictly ascending sequence without its first string
/// holds the strings of the sequence other than the first.
proof fn lemma_tail_holds(names: Seq<Seq<char>>, x: Seq<char>)
    requires
        strictly_ascending(names),
        names.len() > 0,
    ensures
        strictly_ascending(names.drop_first()),
        names.drop_first().contains(x) <==> names.contains(x) && x != names[0],
{
    let tail = names.drop_first();
    assert forall|i: int, j: int| 0 <= i < j < tail.len() implies lex_less(
        #[trigger] tail[i],
        #[trigger] tail[j],
    ) by {
        assert(lex_less(names[i + 1], names[j + 1]));
    }
    if tail.contains(x) {
        let i = choose|i: int| 0 <= i < tail.len() && tail[i] == x;
        assert(names[i + 1] == x);
        assert(lex_less(names[0], names[i + 1]));
        lemma_lex_irreflexive(x);
    }
    if names.contains(x) && x != names[0] {
        let i = choose|i: int| 0 <= i < names.len() && names[i] == x;
        assert(tail[i - 1] == x);
    }
}

/// The first string of a strictly ascending sequence comes before every
/// other string of it.
proof fn lemma_first_is_least(names: Seq<Seq<char>>, x: Seq<char>)
    requires
        strictly_ascending(names),
        names.contains(x),
    ensures
        x == names[0] || lex_less(names[0], x),
{
    let i = choose|i: int| 0 <= i < names.len() && names[i] == x;
    if i > 0 {
        assert(lex_less(names[0], names[i]));
    }
}

/// Two strictly ascending sequences that hold the same strings are equal.
pub proof fn lemma_ascending_unique(a: Seq<Seq<char>>, b: Seq<Seq<char>>)
    requires
        strictly_ascending(a),
        strictly_ascending(b),
        forall|x: Seq<char>| a.contains(x) <==> b.contains(x),
    ensures
        a == b,
    decreases a.len(),
{
    if a.len() == 0 {
        if b.len() > 0 {
            assert(b.contains(b[0]));
            assert(a.contains(b[0]));
        }
        assert(a =~= b);
    } else {
        assert(a.contains(a[0]));
        assert(b.contains(a[0]));
        assert(b.contains(b[0]));
        assert(a.contains(b[0]));
        lemma_first_is_least(a, b[0]);
        lemma_first_is_least(b, a[0]);
        if a[0] != b[0] {
            lemma_lex_asymmetric(a[0], b[0]);
        }
        assert forall|x: Seq<char>| a.drop_first().contains(x) <==> b.drop_first().contains(x) by {
            lemma_tail_holds(a, x);
            lemma_tail_holds(b, x);
        }
        lemma_tail_holds(a, a[0]);
        lemma_tail_holds(b, b[0]);
        lemma_ascending_unique(a.drop_first(), b.drop_first());
        assert(a =~= seq![a[0]] + a.drop_first());
        assert(b =~= seq![b[0]] + b.drop_first());
    }
}

/// A map has at most one ascending listing of its entries.
pub proof fn lemma_sorted_unique(
    a: Seq<PropertyModel>,
    b: Seq<PropertyModel>,
    m: Map<Seq<char>, ValueModel>,
)
    requires
        lists(a, m),
        ascending(a),
        lists(b, m),
        ascending(b),
    ensures
        a == b,
{
    lemma_ascending_unique(names_of(a), names_of(b));
    assert(a.len() == names_of(a).len());
    assert(b.len() == names_of(b).len());
    assert forall|i: int| 0 <= i < a.len() implies a[i] == b[i] by {
        assert(a[i].name == names_of(a)[i]);
        assert(b[i].name == names_of(b)[i]);
        assert(a[i].value == m[a[i].name]);
        assert(b[i].value == m[b[i].name]);
    }
    assert(a =~= b);
}

/// An ascending listing of a map's entries is the map's sorted entries.
pub proof fn lemma_sorted_entries(s: Seq<PropertyModel>, m: Map<Seq<char>, ValueModel>)
    requires
        lists(s, m),
        ascending(s),
    ensures
        sorted_entries(m) == s,
{
    lemma_sorted_unique(sorted_entries(m), s, m);
}


/// Putting a property into an ascending sequence at the place where the
/// names before it come first and the name at that place comes after it
/// leaves the sequence ascending.
proof fn lemma_insert_ascending(s: Seq<PropertyModel>, k: int, x: PropertyModel)
    requires
        ascending(s),
        0 <= k <= s.len(),
        forall|i: int| 0 <= i < k ==> lex_less((#[trigger] s[i]).name, x.name),
        k < s.len() ==> lex_less(x.name, s[k].name),
    ensures
        ascending(s.insert(k, x)),
{
    let t = s.insert(k, x);
    let n = names_of(s);
    let u = names_of(t);
    assert forall|i: int, j: int| 0 <= i < j < u.len() implies lex_less(
        #[trigger] u[i],
        #[trigger] u[j],
    ) by {
        if j < k {
            assert(lex_less(n[i], n[j]));
        } else if j == k {
            assert(u[i] == s[i].name);
        } else if i < k {
            assert(lex_less(n[i], n[j - 1]));
        } else if i == k {
            if j - 1 > k {
                assert(lex_less(n[k], n[j - 1]));
                lemma_lex_transitive(x.name, s[k].name, s[j - 1].name);
            }
        } else {
            assert(lex_less(n[i - 1], n[j - 1]));
        }
    }
}

/// Whether two sequences hold the same properties.
pub open spec fn same_properties(a: Seq<PropertyModel>, b: Seq<PropertyModel>) -> bool {
    forall|x: PropertyModel| a.contains(x) <==> b.contains(x)
}

/// An ascending sequence that holds the properties of a listing of `m` is
/// the sorted entries of `m`.
pub proof fn lemma_sorted_listing(
    a: Seq<PropertyModel>,
    b: Seq<PropertyModel>,
    m: Map<Seq<char>, ValueModel>,
)
    requires
        lists(a, m),
        same_properties(a, b),
        ascending(b),
    ensures
        lists(b, m),
        sorted_entries(m) == b,
{
    lemma_ascending_distinct(names_of(b));
    assert forall|name: Seq<char>| names_of(b).contains(name) <==> m.contains_key(name) by {
        if names_of(b).contains(name) {
            let i = choose|i: int| 0 <= i < names_of(b).len() && names_of(b)[i] == name;
            assert(b.contains(b[i]));
            let k = choose|k: int| 0 <= k < a.len() && a[k] == b[i];
            assert(names_of(a)[k] == name);
            assert(names_of(a).contains(name));
        }
        if m.contains_key(name) {
            assert(names_of(a).contains(name));
            let k = choose|k: int| 0 <= k < names_of(a).len() && names_of(a)[k] == name;
            assert(a.contains(a[k]));
            let i = choose|i: int| 0 <= i < b.len() && b[i] == a[k];
            assert(names_of(b)[i] == name);
        }
    }
    assert forall|i: int| 0 <= i < b.len() implies m[(#[trigger] b[i]).name] == b[i].value by {
        assert(b.contains(b[i]));
        let k = choose|k: int| 0 <= k < a.len() && a[k] == b[i];
        assert(m[a[k].name] == a[k].value);
    }
    lemma_sorted_entries(b, m);
}

/// Sorts properties by name. The names must differ from each other, as
/// the names of one instance's properties do.
pub fn sort_by_name(properties: Vec<Property>) -> (sorted: Vec<Property>)
    requires
        names_of(property_models(properties@)).no_duplicates(),
    ensures
        ascending(property_models(sorted@)),
        same_properties(property_models(properties@), property_models(sorted@)),
        sorted.len() == properties.len(),
{
    let ghost all = property_models(properties@);
    let mut rest = properties;
    let mut sorted: Vec<Property> = Vec::new();
    assert(property_models(sorted@) =~= Seq::<PropertyModel>::empty());
    while rest.len() > 0
        invariant
            ascending(property_models(sorted@)),
            names_of(property_models(rest@)).no_duplicates(),
            forall|i: int, j: int|
                0 <= i < rest.len() && 0 <= j < sorted.len() ==> (#[trigger] rest@[i]).name@ != (
                #[trigger] sorted@[j]).name@,
            forall|x: PropertyModel|
                all.contains(x) <==> property_models(rest@).contains(x) || property_models(
                    sorted@,
                ).contains(x),
            rest.len() + sorted.len() == all.len(),
        decreases rest.len(),
    {
        let ghost r0 = property_models(rest@);
        let ghost s0 = property_models(sorted@);
        let ghost rest0 = rest@;
        let p = rest.pop().unwrap();
        let mut k: usize = 0;
        while k < sorted.len() && precedes(sorted[k].name.as_str(), p.name.as_str())
            invariant
                k <= sorted.len(),
                forall|i: int| 0 <= i < k ==> lex_less((#[trigger] sorted@[i]).name@, p.name@),
            decreases sorted.len() - k,
        {
            k += 1;
        }
        proof {
            assert(rest0[rest0.len() - 1] == p);
            if (k as int) < sorted.len() {
                assert(rest0[rest0.len() - 1].name@ != sorted@[k as int].name@);
                lemma_lex_total(p.name@, sorted@[k as int].name@);
            }
            assert forall|i: int| 0 <= i < k implies lex_less((#[trigger] s0[i]).name, p@.name) by {
                assert(lex_less(sorted@[i].name@, p.name@));
            }
            lemma_insert_ascending(s0, k as int, p@);
        }
        sorted.insert(k, p);
        proof {
            let r1 = property_models(rest@);
            let s1 = property_models(sorted@);
            assert(s1 =~= s0.insert(k as int, p@));
            assert(r1 =~= r0.drop_last());
            assert(r0.last() == p@);
            assert(names_of(r1).no_duplicates()) by {
                assert forall|i: int, j: int|
                    0 <= i < names_of(r1).len() && 0 <= j < names_of(r1).len() && i != j implies names_of(
                    r1,
                )[i] != names_of(r1)[j] by {
                    assert(names_of(r0)[i] != names_of(r0)[j]);
                }
            }
            assert forall|i: int, j: int| 0 <= i < rest.len() && 0 <= j < sorted.len() implies (
            #[trigger] rest@[i]).name@ != (#[trigger] sorted@[j]).name@ by {
                assert(rest@[i] == rest0[i]);
                if j == k {
                    assert(names_of(r0)[i] != names_of(r0)[r0.len() - 1]);
                } else if j < k {
                    assert(s1[j] == s0[j]);
                } else {
                    assert(s1[j] == s0[j - 1]);
                }
            }
            assert forall|x: PropertyModel| all.contains(x) <==> r1.contains(x) || s1.contains(
                x,
            ) by {
                if r0.contains(x) {
                    let i = choose|i: int| 0 <= i < r0.len() && r0[i] == x;
                    if i == r0.len() - 1 {
                        assert(s1[k as int] == x);
                    } else {
                        assert(r1[i] == x);
                    }
                }
                if s0.contains(x) {
                    let j = choose|j: int| 0 <= j < s0.len() && s0[j] == x;
                    if j < k {
                        assert(s1[j] == x);
                    } else {
                        assert(s1[j + 1] == x);
                    }
                }
                if r1.contains(x) {
                    let i = choose|i: int| 0 <= i < r1.len() && r1[i] == x;
                    assert(r0[i] == x);
                }
                if s1.contains(x) {
                    let j = choose|j: int| 0 <= j < s1.len() && s1[j] == x;
                    if j < k {
                        assert(s0[j] == x);
                    } else if j == k {
                        assert(r0[r0.len() - 1] == x);
                    } else {
                        assert(s0[j - 1] == x);
                    }
                }
            }
        }
    }
    proof {
        assert(property_models(rest@) =~= Seq::<PropertyModel>::empty());
        assert forall|x: PropertyModel| all.contains(x) <==> property_models(sorted@).contains(
            x,
        ) by {
            assert(!property_models(rest@).contains(x));
        }
    }
    sorted
}


/// How many of the strictly ascending `names` come before `name`.
pub open spec fn place(names: Seq<Seq<char>>, name: Seq<char>) -> int
    decreases names.len(),
{
    if names.len() == 0 {
        0
    } else if lex_less(names.last(), name) {
        names.len() as int
    } else {
        place(names.drop_last(), name)
    }
}

/// The names before the place of `name` come before `name`, and the name
/// at its place does not.
proof fn lemma_place(names: Seq<Seq<char>>, name: Seq<char>)
    requires
        strictly_ascending(names),
    ensures
        0 <= place(names, name) <= names.len(),
        forall|i: int| 0 <= i < place(names, name) ==> lex_less(#[trigger] names[i], name),
        place(names, name) < names.len() ==> !lex_less(names[place(names, name)], name),
    decreases names.len(),
{
    if names.len() > 0 {
        if lex_less(names.last(), name) {
            assert forall|i: int| 0 <= i < names.len() implies lex_less(
                #[trigger] names[i],
                name,
            ) by {
                if i < names.len() - 1 {
                    assert(lex_less(names[i], names[names.len() - 1]));
                    lemma_lex_transitive(names[i], names.last(), name);
                }
            }
        } else {
            let front = names.drop_last();
            assert forall|i: int, j: int| 0 <= i < j < front.len() implies lex_less(
                #[trigger] front[i],
                #[trigger] front[j],
            ) by {
                assert(lex_less(names[i], names[j]));
            }
            lemma_place(front, name);
            assert forall|i: int| 0 <= i < place(names, name) implies lex_less(
                #[trigger] names[i],
                name,
            ) by {
                assert(front[i] == names[i]);
            }
            if place(names, name) < front.len() {
                assert(front[place(front, name)] == names[place(names, name)]);
            }
        }
    }
}

/// The entries of a finite map can be listed in the ascending order of
/// their names.
pub proof fn lemma_listing_exists(m: Map<Seq<char>, ValueModel>) -> (s: Seq<PropertyModel>)
    requires
        m.dom().finite(),
    ensures
        lists(s, m),
        ascending(s),
    decreases m.dom().len(),
{
    if m.dom().len() == 0 {
        m.dom().lemma_len0_is_empty();
        let s = Seq::<PropertyModel>::empty();
        assert(names_of(s) =~= Seq::<Seq<char>>::empty());
        assert forall|name: Seq<char>| names_of(s).contains(name) <==> m.contains_key(name) by {
            assert(!m.dom().contains(name));
        }
        s
    } else {
        let key = m.dom().choose();
        let rest = m.remove(key);
        assert(rest.dom() =~= m.dom().remove(key));
        let t = lemma_listing_exists(rest);
        let names = names_of(t);
        let p = place(names, key);
        lemma_place(names, key);
        let x = PropertyModel { name: key, value: m[key] };
        assert forall|i: int| 0 <= i < p implies lex_less((#[trigger] t[i]).name, x.name) by {
            assert(names[i] == t[i].name);
        }
        if p < t.len() {
            assert(names[p] == t[p].name);
            assert(names.contains(names[p]));
            assert(rest.contains_key(names[p]));
            lemma_lex_total(key, names[p]);
        }
        lemma_insert_ascending(t, p, x);
        let s = t.insert(p, x);
        lemma_ascending_distinct(names_of(s));
        assert forall|name: Seq<char>| names_of(s).contains(name) <==> m.contains_key(name) by {
            if names_of(s).contains(name) {
                let i = choose|i: int| 0 <= i < names_of(s).len() && names_of(s)[i] == name;
                if i < p {
                    assert(names[i] == name);
                    assert(names.contains(name));
                } else if i > p {
                    assert(names[i - 1] == name);
                    assert(names.contains(name));
                }
            }
            if m.contains_key(name) {
                if name == key {
                    assert(names_of(s)[p] == name);
                } else {
                    assert(rest.contains_key(name));
                    assert(names.contains(name));
                    let i = choose|i: int| 0 <= i < names.len() && names[i] == name;
                    if i < p {
                        assert(names_of(s)[i] == name);
                    } else {
                        assert(names_of(s)[i + 1] == name);
                    }
                }
            }
        }
        assert forall|i: int| 0 <= i < s.len() implies m[(#[trigger] s[i]).name] == s[i].value by {
            if i < p {
                assert(s[i] == t[i]);
                assert(names[i] == t[i].name);
                assert(names.contains(names[i]));
            } else if i > p {
                assert(s[i] == t[i - 1]);
                assert(names[i - 1] == t[i - 1].name);
                assert(names.contains(names[i - 1]));
            }
        }
        s
    }
}

/// The sorted entries of a finite map list the map in the ascending order
/// of the names.
pub proof fn lemma_sorted_entries_list(m: Map<Seq<char>, ValueModel>)
    requires
        m.dom().finite(),
    ensures
        lists(sorted_entries(m), m),
        ascending(sorted_entries(m)),
{
    let s = lemma_listing_exists(m);
}

} // verus!
