//! Relay-side exposure store: the canonical table of exposed control
//! mappings, mutated only through authenticated update requests and always
//! handed back as a snapshot sorted by controller key.

use vstd::prelude::*;

use crate::devices::{dev_views, Device, DeviceUpdate, DeviceView, UpdateView};

verus! {

/// Strictly ascending controller keys: sorted, and no key twice.
pub open spec fn sorted_strict(s: Seq<DeviceView>) -> bool {
    forall|i: int, j: int| 0 <= i < j < s.len() ==> s[i].cc < s[j].cc
}

/// Some entry of `l` has controller key `k`.
pub open spec fn has_key(l: Seq<DeviceView>, k: int) -> bool {
    exists|i: int| 0 <= i < l.len() && l[i].cc == k
}

/// The last entry of `l` with controller key `k`: the one that wins when a
/// batch carries the same key twice.
pub open spec fn last_with_key(l: Seq<DeviceView>, k: int) -> DeviceView
    recommends
        has_key(l, k),
    decreases l.len(),
{
    if l.len() == 0 {
        arbitrary()
    } else if l.last().cc == k {
        l.last()
    } else {
        last_with_key(l.drop_last(), k)
    }
}

/// The association a table denotes: controller key to mapping.
pub open spec fn table_map(s: Seq<DeviceView>) -> Map<int, DeviceView>
    decreases s.len(),
{
    if s.len() == 0 {
        Map::empty()
    } else {
        table_map(s.drop_last()).insert(s.last().cc, s.last())
    }
}

/// Upserting a batch of mappings, first to last; a later entry with the same
/// key overwrites an earlier one.
pub open spec fn add_all(m: Map<int, DeviceView>, l: Seq<DeviceView>) -> Map<int, DeviceView>
    decreases l.len(),
{
    if l.len() == 0 {
        m
    } else {
        add_all(m.insert(l[0].cc, l[0]), l.drop_first())
    }
}

/// Dropping a batch of keys; a key that names no entry drops nothing.
pub open spec fn remove_all(m: Map<int, DeviceView>, keys: Seq<usize>) -> Map<int, DeviceView>
    decreases keys.len(),
{
    if keys.len() == 0 {
        m
    } else {
        remove_all(m.remove(keys[0] as int), keys.drop_first())
    }
}

/// What one update request does to the association.
pub open spec fn apply_update_map(m: Map<int, DeviceView>, u: UpdateView) -> Map<int, DeviceView> {
    match u {
        UpdateView::Add(l) => add_all(m, l),
        UpdateView::Remove(keys) => remove_all(m, keys),
        UpdateView::Clear => Map::empty(),
    }
}

proof fn lemma_has_key_front(l: Seq<DeviceView>, k: int)
    requires
        l.len() > 0,
    ensures
        has_key(l, k) <==> (l[0].cc == k || has_key(l.drop_first(), k)),
{
    if has_key(l, k) {
        let i = choose|i: int| 0 <= i < l.len() && l[i].cc == k;
        if i > 0 {
            assert(l.drop_first()[i - 1].cc == k);
        }
    }
    if has_key(l.drop_first(), k) {
        let i = choose|i: int| 0 <= i < l.drop_first().len() && l.drop_first()[i].cc == k;
        assert(l[i + 1].cc == k);
    }
}

proof fn lemma_has_key_back(l: Seq<DeviceView>, k: int)
    requires
        l.len() > 0,
    ensures
        has_key(l, k) <==> (l.last().cc == k || has_key(l.drop_last(), k)),
{
    if has_key(l, k) {
        let i = choose|i: int| 0 <= i < l.len() && l[i].cc == k;
        if i < l.len() - 1 {
            assert(l.drop_last()[i].cc == k);
        }
    }
    if has_key(l.drop_last(), k) {
        let i = choose|i: int| 0 <= i < l.drop_last().len() && l.drop_last()[i].cc == k;
        assert(l[i].cc == k);
    }
}

/// When `k` still occurs behind the first entry, the last occurrence is
/// found there.
proof fn lemma_last_with_key_front(l: Seq<DeviceView>, k: int)
    requires
        l.len() > 0,
        has_key(l.drop_first(), k),
    ensures
        last_with_key(l, k) == last_with_key(l.drop_first(), k),
    decreases l.len(),
{
    let rest = l.drop_first();
    assert(l.last() == rest.last());
    if l.last().cc != k {
        lemma_has_key_back(rest, k);
        assert(l.drop_last().len() > 0);
        assert(l.drop_last().drop_first() =~= rest.drop_last());
        lemma_last_with_key_front(l.drop_last(), k);
    }
}

/// When `k` occurs only at the front, the front entry is the last
/// occurrence.
proof fn lemma_last_with_key_only_front(l: Seq<DeviceView>, k: int)
    requires
        l.len() > 0,
        l[0].cc == k,
        !has_key(l.drop_first(), k),
    ensures
        last_with_key(l, k) == l[0],
    decreases l.len(),
{
    if l.len() == 1 {
        assert(l.last() == l[0]);
    } else {
        assert(l.drop_first()[l.len() - 2].cc == l.last().cc);
        assert(l.last().cc != k);
        assert(l.drop_last()[0] == l[0]);
        assert(l.drop_last().drop_first() =~= l.drop_first().drop_last());
        assert(!has_key(l.drop_last().drop_first(), k)) by {
            if has_key(l.drop_last().drop_first(), k) {
                let i = choose|i: int|
                    0 <= i < l.drop_last().drop_first().len() && l.drop_last().drop_first()[i].cc
                        == k;
                assert(l.drop_first()[i].cc == k);
            }
        }
        lemma_last_with_key_only_front(l.drop_last(), k);
    }
}

/// What upserting a whole batch leaves in the association at one key: a key
/// of the batch maps to its last occurrence, every other key keeps its old
/// entry.
proof fn lemma_add_all_at(m: Map<int, DeviceView>, l: Seq<DeviceView>, k: int)
    ensures
        add_all(m, l).dom().contains(k) <==> (m.dom().contains(k) || has_key(l, k)),
        has_key(l, k) ==> add_all(m, l)[k] == last_with_key(l, k),
        !has_key(l, k) && m.dom().contains(k) ==> add_all(m, l)[k] == m[k],
    decreases l.len(),
{
    if l.len() > 0 {
        let m1 = m.insert(l[0].cc, l[0]);
        let rest = l.drop_first();
        lemma_add_all_at(m1, rest, k);
        lemma_has_key_front(l, k);
        if has_key(l, k) {
            if has_key(rest, k) {
                lemma_last_with_key_front(l, k);
            } else {
                lemma_last_with_key_only_front(l, k);
            }
        }
    }
}

/// Applying the same batch of additions twice leaves the association exactly
/// as applying it once does.
pub proof fn lemma_add_all_idempotent(m: Map<int, DeviceView>, l: Seq<DeviceView>)
    ensures
        add_all(add_all(m, l), l) == add_all(m, l),
{
    let m1 = add_all(m, l);
    let m2 = add_all(m1, l);
    assert forall|k: int| #![all_triggers] m2.dom().contains(k) <==> m1.dom().contains(k) by {
        lemma_add_all_at(m, l, k);
        lemma_add_all_at(m1, l, k);
    }
    assert forall|k: int| m1.dom().contains(k) implies m2[k] == m1[k] by {
        lemma_add_all_at(m, l, k);
        lemma_add_all_at(m1, l, k);
    }
    assert(m2 =~= m1);
}

/// Idempotent table updates, in the shape of
/// [`ExposureStore::apply_update`]'s contract: applying one batch of
/// additions twice leaves the same table as applying it once.
pub proof fn lemma_add_idempotent_tables(
    t0: Seq<DeviceView>,
    t1: Seq<DeviceView>,
    t2: Seq<DeviceView>,
    l: Seq<DeviceView>,
)
    requires
        sorted_strict(t1),
        sorted_strict(t2),
        table_map(t1) == add_all(table_map(t0), l),
        table_map(t2) == add_all(table_map(t1), l),
    ensures
        t2 == t1,
{
    lemma_add_all_idempotent(table_map(t0), l);
    lemma_sorted_table_unique(t2, t1);
}

/// Removal is a no-op on absence, in the shape of
/// [`ExposureStore::apply_update`]'s contract: dropping keys that name no
/// entry of a sorted table leaves the very same table.
pub proof fn lemma_remove_absent_tables(
    t0: Seq<DeviceView>,
    t1: Seq<DeviceView>,
    keys: Seq<usize>,
)
    requires
        sorted_strict(t0),
        sorted_strict(t1),
        forall|i: int| 0 <= i < keys.len() ==> !has_key(t0, #[trigger] keys[i] as int),
        table_map(t1) == remove_all(table_map(t0), keys),
    ensures
        t1 == t0,
{
    lemma_table_map_dom(t0);
    assert forall|i: int|
        0 <= i < keys.len() implies !table_map(t0).dom().contains(#[trigger] keys[i] as int) by {
        assert(!has_key(t0, keys[i] as int));
    }
    lemma_remove_all_absent(table_map(t0), keys);
    lemma_sorted_table_unique(t1, t0);
}

/// Removing keys that name no entry leaves the association untouched.
pub proof fn lemma_remove_all_absent(m: Map<int, DeviceView>, keys: Seq<usize>)
    requires
        forall|i: int| 0 <= i < keys.len() ==> !m.dom().contains(#[trigger] keys[i] as int),
    ensures
        remove_all(m, keys) == m,
    decreases keys.len(),
{
    if keys.len() > 0 {
        assert(m.remove(keys[0] as int) =~= m);
        assert(forall|i: int|
            0 <= i < keys.drop_first().len() ==> keys.drop_first()[i] == keys[i + 1]);
        lemma_remove_all_absent(m, keys.drop_first());
    }
}

/// In a strictly sorted table no controller key occurs twice.
pub proof fn lemma_sorted_keys_unique(s: Seq<DeviceView>)
    requires
        sorted_strict(s),
    ensures
        forall|i: int, j: int|
            0 <= i < s.len() && 0 <= j < s.len() && i != j ==> s[i].cc != s[j].cc,
{
}

/// The keys of the association are exactly the keys of the table.
proof fn lemma_table_map_dom(s: Seq<DeviceView>)
    ensures
        forall|k: int| table_map(s).dom().contains(k) <==> has_key(s, k),
    decreases s.len(),
{
    if s.len() > 0 {
        lemma_table_map_dom(s.drop_last());
        assert forall|k: int| table_map(s).dom().contains(k) <==> has_key(s, k) by {
            lemma_has_key_back(s, k);
        }
    }
}

/// In a sorted table the association maps each key to its entry.
proof fn lemma_table_map_at(s: Seq<DeviceView>, i: int)
    requires
        sorted_strict(s),
        0 <= i < s.len(),
    ensures
        table_map(s).dom().contains(s[i].cc),
        table_map(s)[s[i].cc] == s[i],
    decreases s.len(),
{
    if i == s.len() - 1 {
        assert(s[i] == s.last());
    } else {
        lemma_table_map_at(s.drop_last(), i);
        assert(s.drop_last()[i] == s[i]);
        assert(s.last().cc != s[i].cc);
    }
}

/// A sorted table is the only sorted table denoting its association: the
/// sorted snapshot is canonical.
pub proof fn lemma_sorted_table_unique(a: Seq<DeviceView>, b: Seq<DeviceView>)
    requires
        sorted_strict(a),
        sorted_strict(b),
        table_map(a) == table_map(b),
    ensures
        a == b,
    decreases a.len(),
{
    lemma_table_map_dom(a);
    lemma_table_map_dom(b);
    if a.len() == 0 {
        if b.len() > 0 {
            assert(has_key(b, b.last().cc));
        }
        assert(a =~= b);
    } else {
        assert(has_key(a, a.last().cc));
        assert(has_key(b, a.last().cc));
        assert(has_key(b, b.last().cc));
        assert(has_key(a, b.last().cc));
        let ia = choose|i: int| 0 <= i < a.len() && a[i].cc == b.last().cc;
        let ib = choose|i: int| 0 <= i < b.len() && b[i].cc == a.last().cc;
        assert(a.last() == a[a.len() - 1]);
        assert(b.last() == b[b.len() - 1]);
        assert(a[ia].cc <= a[a.len() - 1].cc);
        assert(b[ib].cc <= b[b.len() - 1].cc);
        assert(a.last().cc == b.last().cc);
        lemma_table_map_at(a, a.len() - 1);
        lemma_table_map_at(b, b.len() - 1);
        assert(a.last() == b.last());
        assert(table_map(a.drop_last()) =~= table_map(b.drop_last())) by {
            lemma_table_map_dom(a.drop_last());
            lemma_table_map_dom(b.drop_last());
            assert forall|k: int|
                table_map(a.drop_last()).dom().contains(k)
                    <==> table_map(b.drop_last()).dom().contains(k) by {
                lemma_has_key_back(a, k);
                lemma_has_key_back(b, k);
                if has_key(a.drop_last(), k) {
                    let i = choose|i: int| 0 <= i < a.drop_last().len() && a.drop_last()[i].cc == k;
                    assert(a[i].cc == k);
                    assert(k != a.last().cc);
                }
                if has_key(b.drop_last(), k) {
                    let i = choose|i: int| 0 <= i < b.drop_last().len() && b.drop_last()[i].cc == k;
                    assert(b[i].cc == k);
                    assert(k != b.last().cc);
                }
            }
            assert forall|k: int|
                table_map(a.drop_last()).dom().contains(k) implies table_map(a.drop_last())[k]
                == table_map(b.drop_last())[k] by {
                assert(has_key(a.drop_last(), k));
                let i = choose|i: int| 0 <= i < a.drop_last().len() && a.drop_last()[i].cc == k;
                lemma_table_map_at(a.drop_last(), i);
                assert(a.drop_last()[i] == a[i]);
                assert(a[i].cc == k);
                assert(k != a.last().cc) by {
                    lemma_sorted_keys_unique(a);
                }
                assert(table_map(a) == table_map(a.drop_last()).insert(a.last().cc, a.last()));
                assert(table_map(a)[k] == table_map(a.drop_last())[k]);
                assert(has_key(b.drop_last(), k));
                let j = choose|j: int| 0 <= j < b.drop_last().len() && b.drop_last()[j].cc == k;
                lemma_table_map_at(b.drop_last(), j);
                assert(b.drop_last()[j] == b[j]);
                assert(k != b.last().cc) by {
                    lemma_sorted_keys_unique(b);
                }
                assert(table_map(b) == table_map(b.drop_last()).insert(b.last().cc, b.last()));
                assert(table_map(b)[k] == table_map(b.drop_last())[k]);
            }
        }
        lemma_sorted_table_unique(a.drop_last(), b.drop_last());
        assert forall|i: int| 0 <= i < a.len() implies a[i] == b[i] by {
            if i < a.len() - 1 {
                assert(a[i] == a.drop_last()[i]);
                assert(b[i] == b.drop_last()[i]);
            }
        }
        assert(a =~= b);
    }
}

/// Inserting a fresh key at its sorted position is exactly a map insert.
#[verifier::rlimit(60)]
proof fn lemma_table_map_insert_at(s: Seq<DeviceView>, i: int, d: DeviceView)
    requires
        sorted_strict(s),
        0 <= i <= s.len(),
        forall|j: int| 0 <= j < i ==> s[j].cc < d.cc,
        forall|j: int| i <= j < s.len() ==> s[j].cc > d.cc,
    ensures
        sorted_strict(s.insert(i, d)),
        table_map(s.insert(i, d)) == table_map(s).insert(d.cc, d),
    decreases s.len(),
{
    s.insert_ensures(i, d);
    let t = s.insert(i, d);
    assert forall|p: int, q: int| 0 <= p < q < t.len() implies t[p].cc < t[q].cc by {
        if q < i {
            assert(t[p] == s[p] && t[q] == s[q]);
        } else if q == i {
            assert(t[p] == s[p] && t[q] == d);
        } else {
            assert(t[q] == s[q - 1]);
            if p < i {
                assert(t[p] == s[p]);
            } else if p == i {
                assert(t[p] == d);
            } else {
                assert(t[p] == s[p - 1]);
            }
        }
    }
    if i == s.len() {
        assert(t.drop_last() =~= s);
        assert(t[t.len() - 1] == d);
        assert(table_map(t) == table_map(s).insert(d.cc, d));
    } else {
        let sp = s.drop_last();
        assert(t[t.len() - 1] == s[s.len() - 1]);
        assert(t.last() == s.last());
        sp.insert_ensures(i, d);
        assert(t.drop_last() =~= sp.insert(i, d)) by {
            assert forall|x: int| 0 <= x < t.len() - 1 implies t.drop_last()[x] == sp.insert(
                i,
                d,
            )[x] by {
                if x < i {
                    assert(t[x] == s[x] && sp.insert(i, d)[x] == sp[x] && sp[x] == s[x]);
                } else if x == i {
                    assert(t[x] == d && sp.insert(i, d)[x] == d);
                } else {
                    assert(t[x] == s[x - 1] && sp.insert(i, d)[x] == sp[x - 1] && sp[x - 1] == s[x
                        - 1]);
                }
            }
        }
        assert forall|j: int| 0 <= j < i implies sp[j].cc < d.cc by {
            assert(sp[j] == s[j]);
        }
        assert forall|j: int| i <= j < sp.len() implies sp[j].cc > d.cc by {
            assert(sp[j] == s[j]);
        }
        lemma_table_map_insert_at(sp, i, d);
        assert(table_map(t) == table_map(sp).insert(d.cc, d).insert(s.last().cc, s.last()));
        assert(s.last().cc > d.cc);
        assert(table_map(sp).insert(d.cc, d).insert(s.last().cc, s.last()) =~= table_map(
            sp,
        ).insert(s.last().cc, s.last()).insert(d.cc, d));
        assert(table_map(s) == table_map(sp).insert(s.last().cc, s.last()));
    }
}

/// Removing the entry at one position of a sorted table is exactly a map
/// removal of its key.
#[verifier::rlimit(60)]
proof fn lemma_table_map_remove_at(s: Seq<DeviceView>, i: int)
    requires
        sorted_strict(s),
        0 <= i < s.len(),
    ensures
        sorted_strict(s.remove(i)),
        table_map(s.remove(i)) == table_map(s).remove(s[i].cc),
    decreases s.len(),
{
    s.remove_ensures(i);
    let t = s.remove(i);
    assert forall|p: int, q: int| 0 <= p < q < t.len() implies t[p].cc < t[q].cc by {
        if q < i {
            assert(t[p] == s[p] && t[q] == s[q]);
        } else {
            assert(t[q] == s[q + 1]);
            if p < i {
                assert(t[p] == s[p]);
            } else {
                assert(t[p] == s[p + 1]);
            }
        }
    }
    if i == s.len() - 1 {
        assert(t =~= s.drop_last());
        lemma_table_map_dom(s.drop_last());
        assert(!has_key(s.drop_last(), s[i].cc)) by {
            if has_key(s.drop_last(), s[i].cc) {
                let j = choose|j: int| 0 <= j < s.drop_last().len() && s.drop_last()[j].cc
                    == s[i].cc;
                assert(s[j].cc == s[i].cc);
            }
        }
        assert(table_map(s) == table_map(s.drop_last()).insert(s.last().cc, s.last()));
        assert(s.last() == s[i]);
        assert(table_map(s.drop_last()).insert(s[i].cc, s[i]).remove(s[i].cc) =~= table_map(
            s.drop_last(),
        ));
    } else {
        let sp = s.drop_last();
        assert(t[t.len() - 1] == s[s.len() - 1]);
        assert(t.last() == s.last());
        sp.remove_ensures(i);
        assert(t.drop_last() =~= sp.remove(i)) by {
            assert forall|x: int| 0 <= x < t.len() - 1 implies t.drop_last()[x] == sp.remove(
                i,
            )[x] by {
                if x < i {
                    assert(t[x] == s[x] && sp.remove(i)[x] == sp[x] && sp[x] == s[x]);
                } else {
                    assert(t[x] == s[x + 1] && sp.remove(i)[x] == sp[x + 1] && sp[x + 1] == s[x
                        + 1]);
                }
            }
        }
        assert(sp[i] == s[i]);
        lemma_table_map_remove_at(sp, i);
        assert(table_map(t) == table_map(sp).remove(s[i].cc).insert(s.last().cc, s.last()));
        assert(s[i].cc < s.last().cc);
        assert(table_map(sp).remove(s[i].cc).insert(s.last().cc, s.last()) =~= table_map(
            sp,
        ).insert(s.last().cc, s.last()).remove(s[i].cc));
        assert(table_map(s) == table_map(sp).insert(s.last().cc, s.last()));
    }
}

/// Device views distribute over a sequence insertion.
proof fn lemma_dev_views_insert(x: Seq<Device>, i: int, d: Device)
    requires
        0 <= i <= x.len(),
    ensures
        dev_views(x.insert(i, d)) =~= dev_views(x).insert(i, d@),
{
    x.insert_ensures(i, d);
    dev_views(x).insert_ensures(i, d@);
    assert forall|j: int| 0 <= j < x.len() + 1 implies dev_views(x.insert(i, d))[j] == dev_views(
        x,
    ).insert(i, d@)[j] by {
        if j < i {
            assert(x.insert(i, d)[j] == x[j]);
            assert(dev_views(x).insert(i, d@)[j] == dev_views(x)[j]);
        } else if j == i {
            assert(x.insert(i, d)[j] == d);
        } else {
            assert(x.insert(i, d)[j] == x[j - 1]);
            assert(dev_views(x).insert(i, d@)[j] == dev_views(x)[j - 1]);
        }
    }
}

/// Device views distribute over a sequence removal.
proof fn lemma_dev_views_remove(x: Seq<Device>, i: int)
    requires
        0 <= i < x.len(),
    ensures
        dev_views(x.remove(i)) =~= dev_views(x).remove(i),
{
    x.remove_ensures(i);
    dev_views(x).remove_ensures(i);
    assert forall|j: int| 0 <= j < x.len() - 1 implies dev_views(x.remove(i))[j] == dev_views(
        x,
    ).remove(i)[j] by {
        if j < i {
            assert(x.remove(i)[j] == x[j]);
            assert(dev_views(x).remove(i)[j] == dev_views(x)[j]);
        } else {
            assert(x.remove(i)[j] == x[j + 1]);
            assert(dev_views(x).remove(i)[j] == dev_views(x)[j + 1]);
        }
    }
}

/// Every key of a table of byte-keyed devices lies in the byte range.
proof fn lemma_table_keys_in_range(s: Seq<DeviceView>, k: int)
    requires
        forall|j: int| 0 <= j < s.len() ==> 0 <= (#[trigger] s[j].cc) <= 255,
        !(0 <= k <= 255),
    ensures
        !table_map(s).dom().contains(k),
{
    lemma_table_map_dom(s);
    if has_key(s, k) {
        let j = choose|j: int| 0 <= j < s.len() && s[j].cc == k;
        assert(0 <= s[j].cc <= 255);
    }
}

/// A copy of a device table, entry for entry.
fn clone_devices(v: &Vec<Device>) -> (r: Vec<Device>)
    ensures
        r@ == v@,
{
    let mut r: Vec<Device> = Vec::new();
    let mut i: usize = 0;
    while i < v.len()
        invariant
            0 <= i <= v@.len(),
            r@ =~= v@.take(i as int),
        decreases v@.len() - i,
    {
        r.push(v[i].clone());
        proof {
            assert(v@.take(i as int).push(v@[i as int]) =~= v@.take(i as int + 1));
        }
        i = i + 1;
    }
    proof {
        assert(v@.take(v@.len() as int) =~= v@);
    }
    r
}

/// Puts one mapping into a sorted table: replaces the entry carrying the
/// same key, or inserts at the sorted position.
fn upsert(table: &mut Vec<Device>, d: Device)
    requires
        sorted_strict(dev_views(old(table)@)),
    ensures
        sorted_strict(dev_views(final(table)@)),
        table_map(dev_views(final(table)@)) == table_map(dev_views(old(table)@)).insert(
            d@.cc,
            d@,
        ),
{
    let ghost s = dev_views(old(table)@);
    let mut i: usize = 0;
    while i < table.len() && table[i].cc < d.cc
        invariant
            0 <= i <= table@.len(),
            table@ == old(table)@,
            s == dev_views(table@),
            sorted_strict(s),
            forall|j: int| 0 <= j < i ==> dev_views(table@)[j].cc < d@.cc,
        decreases table@.len() - i,
    {
        proof {
            assert(dev_views(table@)[i as int] == table@[i as int]@);
        }
        i = i + 1;
    }
    if i < table.len() && table[i].cc == d.cc {
        let _replaced = table.remove(i);
        proof {
            lemma_dev_views_remove(old(table)@, i as int);
            lemma_table_map_remove_at(s, i as int);
            assert(s[i as int] == old(table)@[i as int]@);
        }
        let ghost sr = dev_views(table@);
        table.insert(i, d);
        proof {
            lemma_dev_views_insert(old(table)@.remove(i as int), i as int, d);
            s.remove_ensures(i as int);
            assert forall|j: int| 0 <= j < i implies sr[j].cc < d@.cc by {
                assert(sr[j] == s[j]);
            }
            assert forall|j: int| i <= j < sr.len() implies sr[j].cc > d@.cc by {
                assert(sr[j] == s[j + 1]);
                assert(s[i as int].cc < s[j + 1].cc);
            }
            lemma_table_map_insert_at(sr, i as int, d@);
            assert(table_map(s).remove(d@.cc).insert(d@.cc, d@) =~= table_map(s).insert(
                d@.cc,
                d@,
            ));
        }
    } else {
        proof {
            assert forall|j: int| i <= j < s.len() implies s[j].cc > d@.cc by {
                assert(s[i as int] == table@[i as int]@);
                if j > i {
                    assert(s[i as int].cc < s[j].cc);
                }
            }
        }
        table.insert(i, d);
        proof {
            lemma_dev_views_insert(old(table)@, i as int, d);
            lemma_table_map_insert_at(s, i as int, d@);
        }
    }
}

/// Drops the mapping with one controller key from a sorted table, if it is
/// there; dropping an absent key changes nothing.
fn remove_key(table: &mut Vec<Device>, key: u8)
    requires
        sorted_strict(dev_views(old(table)@)),
    ensures
        sorted_strict(dev_views(final(table)@)),
        table_map(dev_views(final(table)@)) == table_map(dev_views(old(table)@)).remove(
            key as int,
        ),
{
    let ghost s = dev_views(old(table)@);
    let mut i: usize = 0;
    while i < table.len()
        invariant
            0 <= i <= table@.len(),
            table@ == old(table)@,
            s == dev_views(table@),
            sorted_strict(s),
            forall|j: int| 0 <= j < i ==> dev_views(table@)[j].cc != key as int,
        decreases table@.len() - i,
    {
        if table[i].cc == key {
            let _removed = table.remove(i);
            proof {
                lemma_dev_views_remove(old(table)@, i as int);
                lemma_table_map_remove_at(s, i as int);
                assert(s[i as int] == old(table)@[i as int]@);
            }
            return ;
        }
        proof {
            assert(dev_views(table@)[i as int] == table@[i as int]@);
        }
        i = i + 1;
    }
    proof {
        lemma_table_map_dom(s);
        assert(!has_key(s, key as int)) by {
            if has_key(s, key as int) {
                let j = choose|j: int| 0 <= j < s.len() && s[j].cc == key as int;
            }
        }
        assert(table_map(s).remove(key as int) =~= table_map(s));
    }
}

/// An update request carried a secret that does not match the configured
/// one.
#[derive(Clone, Copy, PartialEq, Eq, Structural, Debug)]
pub struct Unauthorized;

/// The canonical, relay-owned table of exposed control mappings. The holder
/// serializes access; every mutation goes through [`Self::apply_update`] and
/// hands back the full sorted table as the one synchronization point.
pub struct ExposureStore {
    secret: String,
    table: Vec<Device>,
}

impl ExposureStore {
    /// The configured shared secret.
    pub closed spec fn secret_view(&self) -> Seq<char> {
        self.secret@
    }

    /// The table as a sequence of device views.
    pub closed spec fn table_view(&self) -> Seq<DeviceView> {
        dev_views(self.table@)
    }

    /// The table is always strictly ascending by controller key.
    pub open spec fn wf(&self) -> bool {
        sorted_strict(self.table_view())
    }

    /// An empty store guarding updates with `secret`.
    pub fn new(secret: String) -> (s: Self)
        ensures
            s.wf(),
            s.secret_view() == secret@,
            s.table_view() == Seq::<DeviceView>::empty(),
    {
        let s = ExposureStore { secret, table: Vec::new() };
        proof {
            assert(dev_views(s.table@) =~= Seq::<DeviceView>::empty());
        }
        s
    }

    /// Applies one update under the lock the holder provides and returns the
    /// full table afterwards, sorted ascending by controller key. Succeeds
    /// exactly when the secret matches; a mismatch changes nothing. Additions
    /// upsert entry by entry, a later entry overwriting an earlier one with
    /// the same key; removals of absent keys (any key above 255 names no
    /// controller) are no-ops; `Clear` empties the table.
    pub fn apply_update(&mut self, secret: &String, update: &DeviceUpdate) -> (r: Result<
        Vec<Device>,
        Unauthorized,
    >)
        requires
            old(self).wf(),
        ensures
            final(self).wf(),
            final(self).secret_view() == old(self).secret_view(),
            match r {
                Ok(snapshot) => {
                    &&& secret@ == old(self).secret_view()
                    &&& table_map(final(self).table_view()) == apply_update_map(
                        table_map(old(self).table_view()),
                        update@,
                    )
                    &&& dev_views(snapshot@) == final(self).table_view()
                },
                Err(_) => {
                    &&& secret@ != old(self).secret_view()
                    &&& final(self).table_view() == old(self).table_view()
                },
            },
    {
        let ok = self.secret == *secret;
        if !ok {
            return Err(Unauthorized);
        }
        let ghost m0 = table_map(dev_views(old(self).table@));
        match update {
            DeviceUpdate::Add(additions) => {
                let ghost l = dev_views(additions@);
                let mut idx: usize = 0;
                proof {
                    assert(l.skip(0) =~= l);
                }
                while idx < additions.len()
                    invariant
                        0 <= idx <= additions@.len(),
                        l == dev_views(additions@),
                        sorted_strict(dev_views(self.table@)),
                        self.secret@ == old(self).secret@,
                        add_all(m0, l) == add_all(table_map(dev_views(self.table@)), l.skip(
                            idx as int,
                        )),
                    decreases additions@.len() - idx,
                {
                    let d = additions[idx].clone();
                    let ghost cur = table_map(dev_views(self.table@));
                    upsert(&mut self.table, d);
                    proof {
                        assert(l[idx as int] == additions@[idx as int]@);
                        assert(l.skip(idx as int)[0] == l[idx as int]);
                        assert(l.skip(idx as int).drop_first() =~= l.skip(idx as int + 1));
                        assert(add_all(cur, l.skip(idx as int)) == add_all(
                            cur.insert(l[idx as int].cc, l[idx as int]),
                            l.skip(idx as int + 1),
                        ));
                    }
                    idx = idx + 1;
                }
                proof {
                    assert(l.skip(additions@.len() as int) =~= Seq::<DeviceView>::empty());
                }
            },
            DeviceUpdate::Remove(keys) => {
                let mut idx: usize = 0;
                proof {
                    assert(keys@.skip(0) =~= keys@);
                }
                while idx < keys.len()
                    invariant
                        0 <= idx <= keys@.len(),
                        sorted_strict(dev_views(self.table@)),
                        self.secret@ == old(self).secret@,
                        remove_all(m0, keys@) == remove_all(
                            table_map(dev_views(self.table@)),
                            keys@.skip(idx as int),
                        ),
                    decreases keys@.len() - idx,
                {
                    let k = keys[idx];
                    let ghost cur = table_map(dev_views(self.table@));
                    if k <= 255 {
                        remove_key(&mut self.table, k as u8);
                    } else {
                        proof {
                            assert forall|j: int|
                                0 <= j < dev_views(self.table@).len() implies 0 <= (
                            #[trigger] dev_views(self.table@)[j].cc) <= 255 by {
                                assert(dev_views(self.table@)[j] == self.table@[j]@);
                            }
                            lemma_table_keys_in_range(dev_views(self.table@), k as int);
                            assert(cur.remove(k as int) =~= cur);
                        }
                    }
                    proof {
                        assert(keys@.skip(idx as int)[0] == keys@[idx as int]);
                        assert(keys@.skip(idx as int).drop_first() =~= keys@.skip(idx as int + 1));
                        assert(remove_all(cur, keys@.skip(idx as int)) == remove_all(
                            cur.remove(keys@[idx as int] as int),
                            keys@.skip(idx as int + 1),
                        ));
                    }
                    idx = idx + 1;
                }
                proof {
                    assert(keys@.skip(keys@.len() as int) =~= Seq::<usize>::empty());
                }
            },
            DeviceUpdate::Clear => {
                self.table.clear();
                proof {
                    assert(dev_views(self.table@) =~= Seq::<DeviceView>::empty());
                }
            },
        }
        let snapshot = clone_devices(&self.table);
        Ok(snapshot)
    }
}

} // verus!
