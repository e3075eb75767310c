use vstd::prelude::*;

use crate::value::{all_set, array_view, table_view, Doc, Value};

verus! {

broadcast use vstd::std_specs::vec::group_vec_axioms, vstd::seq::group_seq_axioms;

/// Entry `p` is the first one of `es` whose key is `k`.
pub open spec fn is_first_key(es: Seq<(Seq<char>, Doc)>, k: Seq<char>, p: int) -> bool {
    &&& 0 <= p < es.len()
    &&& es[p].0 == k
    &&& forall|j: int| 0 <= j < p ==> es[j].0 != k
}

/// The position of the first entry of `es` whose key is `k`, or -1 where there is none.
pub open spec fn key_index(es: Seq<(Seq<char>, Doc)>, k: Seq<char>) -> int {
    if exists|p: int| is_first_key(es, k, p) {
        choose|p: int| is_first_key(es, k, p)
    } else {
        -1
    }
}

/// Overlay `inc` on `acc`: scalars replace, sequences merge by index, tables by key,
/// and a compound of another kind is replaced whole.
pub open spec fn merge_doc(acc: Doc, inc: Doc) -> Doc
    decreases inc,
{
    match inc {
        Doc::Arr(xs) => match acc {
            Doc::Arr(ys) => Doc::Arr(merge_arrays(ys, xs)),
            _ => inc,
        },
        Doc::Table(xs) => match acc {
            Doc::Table(ys) => Doc::Table(merge_entries(ys, xs)),
            _ => inc,
        },
        _ => inc,
    }
}

/// Index-aligned merge of two sequences: positions of `xs` overlay those of `ys`,
/// extra positions of `xs` are appended and extra positions of `ys` are kept.
pub open spec fn merge_arrays(ys: Seq<Doc>, xs: Seq<Doc>) -> Seq<Doc>
    decreases xs,
{
    Seq::new(
        if ys.len() > xs.len() {
            ys.len()
        } else {
            xs.len()
        },
        |i: int|
            if 0 <= i < xs.len() {
                if i < ys.len() {
                    merge_doc(ys[i], xs[i])
                } else {
                    xs[i]
                }
            } else {
                ys[i]
            },
    )
}

/// Key-wise merge of two tables, taking the entries of `xs` in order: a key already
/// present is merged in place, a new key is appended.
pub open spec fn merge_entries(ys: Seq<(Seq<char>, Doc)>, xs: Seq<(Seq<char>, Doc)>) -> Seq<
    (Seq<char>, Doc),
>
    decreases xs,
{
    if xs.len() == 0 {
        ys
    } else {
        let prev = merge_entries(ys, xs.subrange(0, xs.len() - 1));
        let e = xs[xs.len() - 1];
        let p = key_index(prev, e.0);
        if p >= 0 {
            prev.update(p, (prev[p].0, merge_doc(prev[p].1, e.1)))
        } else {
            prev.push(e)
        }
    }
}

/// The position of the first entry of `es` whose key is `k`.
fn find_key(es: &Vec<(String, Value)>, k: &String) -> (r: Option<usize>)
    ensures
        match r {
            Some(p) => key_index(table_view(*es), k@) == p,
            None => key_index(table_view(*es), k@) == -1,
        },
{
    let ghost es_v = table_view(*es);
    let mut j: usize = 0;
    while j < es.len()
        invariant
            j <= es.len(),
            es_v == table_view(*es),
            forall|i: int| 0 <= i < j ==> es_v[i].0 != k@,
        decreases es.len() - j,
    {
        if es[j].0 == *k {
            assert(is_first_key(es_v, k@, j as int));
            assert forall|p: int| is_first_key(es_v, k@, p) implies p == j by {
                if p < j {
                } else if p > j {
                    assert(es_v[j as int].0 == k@);
                }
            }
            return Some(j);
        }
        j += 1;
    }
    assert(!exists|p: int| is_first_key(es_v, k@, p));
    None
}

/// Overlay `value` on `merged`, in place: the later document wins on every scalar.
pub fn merge(merged: &mut Value, value: &Value)
    ensures
        final(merged)@ == merge_doc(old(merged)@, value@),
{
    let mut cur = Value::Boolean(false);
    core::mem::swap(merged, &mut cur);
    *merged = merge_value(cur, value);
}

/// `acc` with `value` overlaid on it.
fn merge_value(acc: Value, value: &Value) -> (r: Value)
    ensures
        r@ == merge_doc(acc@, value@),
    decreases value,
{
    match value {
        Value::Array(xs) => match acc {
            Value::Array(ys) => {
                let mut ys = ys;
                proof {
                    assert(decreases_to!(*value => value->Array_0));
                }
                merge_array(&mut ys, xs);
                Value::Array(ys)
            },
            _ => value.deep_copy(),
        },
        Value::Table(xs) => match acc {
            Value::Table(ys) => {
                let mut ys = ys;
                proof {
                    assert(decreases_to!(*value => value->Table_0));
                }
                merge_table(&mut ys, xs);
                Value::Table(ys)
            },
            _ => value.deep_copy(),
        },
        _ => value.deep_copy(),
    }
}

/// Merge the sequence `xs` into the sequence `ys`, index by index.
fn merge_array(ys: &mut Vec<Value>, xs: &Vec<Value>)
    ensures
        array_view(*final(ys)) == merge_arrays(array_view(*old(ys)), array_view(*xs)),
    decreases xs,
{
    let ghost ys0 = *ys;
    let n0 = ys.len();
    let mut i: usize = 0;
    while i < xs.len()
        invariant
            i <= xs.len(),
            n0 == ys0.len(),
            ys.len() == if n0 > i {
                n0 as int
            } else {
                i as int
            },
            forall|j: int|
                0 <= j < i ==> #[trigger] ys[j]@ == if j < n0 {
                    merge_doc(ys0[j]@, xs[j]@)
                } else {
                    xs[j]@
                },
            forall|j: int| i <= j < n0 ==> #[trigger] ys[j] == ys0[j],
        decreases xs.len() - i,
    {
        if i < ys.len() {
            let mut e = Value::Boolean(false);
            ys.set_and_swap(i, &mut e);
            proof {
                assert(decreases_to!(*xs => xs[i as int]));
            }
            let m = merge_value(e, &xs[i]);
            ys.set(i, m);
        } else {
            let c = xs[i].deep_copy();
            ys.push(c);
        }
        i += 1;
    }
    let ghost lhs = array_view(*ys);
    let ghost rhs = merge_arrays(array_view(ys0), array_view(*xs));
    assert(lhs =~= rhs) by {
        assert forall|j: int| 0 <= j < lhs.len() implies lhs[j] == rhs[j] by {
            assert(lhs[j] == ys[j]@);
            if j < n0 {
                assert(array_view(ys0)[j] == ys0[j]@);
            }
            if j < xs.len() {
                assert(array_view(*xs)[j] == xs[j]@);
            } else {
                assert(ys[j] == ys0[j]);
            }
        }
    }
}

/// Merge the table `xs` into the table `ys`, key by key, in the order of `xs`.
fn merge_table(ys: &mut Vec<(String, Value)>, xs: &Vec<(String, Value)>)
    ensures
        table_view(*final(ys)) == merge_entries(table_view(*old(ys)), table_view(*xs)),
    decreases xs,
{
    let ghost y0 = table_view(*ys);
    let ghost xv = table_view(*xs);
    let mut i: usize = 0;
    while i < xs.len()
        invariant
            i <= xs.len(),
            xv == table_view(*xs),
            table_view(*ys) == merge_entries(y0, xv.subrange(0, i as int)),
        decreases xs.len() - i,
    {
        let ghost prev = table_view(*ys);
        assert(xv.subrange(0, i + 1).subrange(0, i as int) =~= xv.subrange(0, i as int));
        match find_key(ys, &xs[i].0) {
            Some(p) => {
                let mut e = (String::new(), Value::Boolean(false));
                ys.set_and_swap(p, &mut e);
                let (ek, ev) = e;
                proof {
                    assert(decreases_to!(*xs => xs[i as int]));
                    assert(decreases_to!(xs[i as int] => xs[i as int].1));
                }
                let m = merge_value(ev, &xs[i].1);
                ys.set(p, (ek, m));
                assert(table_view(*ys) =~= prev.update(p as int, (prev[p as int].0, merge_doc(prev[p as int].1, xv[i as int].1))));
            },
            None => {
                let k = xs[i].0.clone();
                let c = xs[i].1.deep_copy();
                ys.push((k, c));
                assert(table_view(*ys) =~= prev.push(xv[i as int]));
            },
        }
        i += 1;
    }
    assert(xv.subrange(0, xs.len() as int) =~= xv);
}

/// The documents `ds` overlaid in order on an empty table.
pub open spec fn merge_all(ds: Seq<Doc>) -> Doc
    decreases ds.len(),
{
    if ds.len() == 0 {
        Doc::Table(Seq::empty())
    } else {
        merge_doc(merge_all(ds.subrange(0, ds.len() - 1)), ds[ds.len() - 1])
    }
}

/// Merge `docs` in order, later ones taking precedence, starting from an empty table.
pub fn merge_documents(docs: &Vec<Value>) -> (r: Value)
    ensures
        r@ == merge_all(array_view(*docs)),
        docs.len() == 0 ==> r@ == Doc::Table(Seq::empty()),
{
    let ghost dv = array_view(*docs);
    let mut merged = Value::empty_table();
    let mut i: usize = 0;
    while i < docs.len()
        invariant
            i <= docs.len(),
            dv == array_view(*docs),
            dv.len() == docs.len(),
            merged@ == merge_all(dv.subrange(0, i as int)),
        decreases docs.len() - i,
    {
        assert(dv.subrange(0, i + 1).subrange(0, i as int) =~= dv.subrange(0, i as int));
        assert(dv[i as int] == docs[i as int]@);
        merge(&mut merged, &docs[i]);
        i += 1;
    }
    assert(dv.subrange(0, docs.len() as int) =~= dv);
    merged
}

/// No two entries of `es` share a key.
pub open spec fn keys_unique(es: Seq<(Seq<char>, Doc)>) -> bool {
    forall|i: int, j: int| 0 <= i < j < es.len() ==> #[trigger] es[i].0 != #[trigger] es[j].0
}

/// Some entry of `es` has key `k`.
pub open spec fn has_key(es: Seq<(Seq<char>, Doc)>, k: Seq<char>) -> bool {
    exists|i: int| 0 <= i < es.len() && #[trigger] es[i].0 == k
}

/// The value under key `k` in `es`.
pub open spec fn lookup(es: Seq<(Seq<char>, Doc)>, k: Seq<char>) -> Option<Doc> {
    let p = key_index(es, k);
    if p >= 0 {
        Some(es[p].1)
    } else {
        None
    }
}

/// In a table with unique keys, the entry with key `k` is where `key_index` points.
pub proof fn lemma_key_index_unique(es: Seq<(Seq<char>, Doc)>, k: Seq<char>, p: int)
    requires
        keys_unique(es),
        0 <= p < es.len(),
        es[p].0 == k,
    ensures
        key_index(es, k) == p,
{
    assert(is_first_key(es, k, p));
}

/// Without an entry with key `k`, `key_index` finds none.
pub proof fn lemma_key_index_absent(es: Seq<(Seq<char>, Doc)>, k: Seq<char>)
    requires
        !has_key(es, k),
    ensures
        key_index(es, k) == -1,
{
    assert(!exists|p: int| is_first_key(es, k, p)) by {
        if exists|p: int| is_first_key(es, k, p) {
            let p = choose|p: int| is_first_key(es, k, p);
            assert(es[p].0 == k);
        }
    }
}

/// Merging a table with unique keys into an empty table gives that table back.
pub proof fn lemma_merge_into_empty(es: Seq<(Seq<char>, Doc)>)
    requires
        keys_unique(es),
    ensures
        merge_doc(Doc::Table(Seq::empty()), Doc::Table(es)) == Doc::Table(es),
        merge_entries(Seq::empty(), es) == es,
    decreases es.len(),
{
    if es.len() > 0 {
        let n = es.len() - 1;
        let init = es.subrange(0, n);
        lemma_merge_into_empty(init);
        let e = es[n];
        assert(!has_key(init, e.0)) by {
            if has_key(init, e.0) {
                let i = choose|i: int| 0 <= i < init.len() && #[trigger] init[i].0 == e.0;
                assert(es[i].0 == es[n].0);
            }
        }
        lemma_key_index_absent(init, e.0);
        assert(init.push(e) =~= es);
    }
    let empty = Seq::<(Seq<char>, Doc)>::empty();
    assert(merge_entries(empty, es) == es);
    assert(merge_doc(Doc::Table(empty), Doc::Table(es)) == Doc::Table(merge_entries(empty, es)));
}

/// The merged value of key `k` given its values before (`a`) and in the incoming table (`b`).
pub open spec fn merged_lookup(a: Option<Doc>, b: Option<Doc>) -> Option<Doc> {
    match b {
        Some(bv) => match a {
            Some(av) => Some(merge_doc(av, bv)),
            None => Some(bv),
        },
        None => a,
    }
}

/// In a table with unique keys, `k` is found exactly where it stands.
proof fn lemma_lookup(es: Seq<(Seq<char>, Doc)>, k: Seq<char>)
    requires
        keys_unique(es),
    ensures
        forall|p: int|
            0 <= p < es.len() && #[trigger] es[p].0 == k ==> lookup(es, k) == Some(es[p].1),
        !has_key(es, k) ==> lookup(es, k) is None,
        key_index(es, k) >= 0 ==> has_key(es, k),
{
    assert forall|p: int| 0 <= p < es.len() && #[trigger] es[p].0 == k implies lookup(es, k) == Some(
        es[p].1,
    ) by {
        lemma_key_index_unique(es, k, p);
    }
    if !has_key(es, k) {
        lemma_key_index_absent(es, k);
    }
    if key_index(es, k) >= 0 {
        let p = key_index(es, k);
        assert(is_first_key(es, k, p));
    }
}

/// Merging one table into another, both with unique keys: the keys stay unique; a key
/// of the incoming table gets its value merged over the earlier one, or taken as it is
/// where the earlier table lacks it; every other key keeps its earlier value.
pub proof fn lemma_merge_entries_lookup(
    ys: Seq<(Seq<char>, Doc)>,
    xs: Seq<(Seq<char>, Doc)>,
    k: Seq<char>,
)
    requires
        keys_unique(ys),
        keys_unique(xs),
    ensures
        keys_unique(merge_entries(ys, xs)),
        lookup(merge_entries(ys, xs), k) == merged_lookup(lookup(ys, k), lookup(xs, k)),
    decreases xs.len(),
{
    if xs.len() > 0 {
        let n = xs.len() - 1;
        let init = xs.subrange(0, n);
        let e = xs[n];
        let prev = merge_entries(ys, init);
        assert(keys_unique(init));
        lemma_merge_entries_lookup(ys, init, k);
        lemma_merge_entries_lookup(ys, init, e.0);
        let r = merge_entries(ys, xs);
        lemma_lookup(prev, k);
        lemma_lookup(prev, e.0);
        lemma_lookup(xs, k);
        lemma_lookup(xs, e.0);
        lemma_lookup(init, k);
        lemma_lookup(init, e.0);
        assert(!has_key(init, e.0)) by {
            if has_key(init, e.0) {
                let i = choose|i: int| 0 <= i < init.len() && #[trigger] init[i].0 == e.0;
                assert(xs[i].0 == xs[n].0);
            }
        }
        assert(lookup(xs, e.0) == Some(e.1));
        if k != e.0 {
            if has_key(init, k) {
                let i = choose|i: int| 0 <= i < init.len() && #[trigger] init[i].0 == k;
                assert(xs[i].0 == k);
            } else {
                assert(!has_key(xs, k)) by {
                    if has_key(xs, k) {
                        let i = choose|i: int| 0 <= i < xs.len() && #[trigger] xs[i].0 == k;
                        assert(i != n);
                        assert(init[i].0 == k);
                    }
                }
            }
            assert(lookup(xs, k) == lookup(init, k));
        }
        let p = key_index(prev, e.0);
        if p >= 0 {
            assert(r == prev.update(p, (prev[p].0, merge_doc(prev[p].1, e.1))));
            assert(prev[p].0 == e.0);
            assert(keys_unique(r)) by {
                assert forall|i: int, j: int| 0 <= i < j < r.len() implies #[trigger] r[i].0
                    != #[trigger] r[j].0 by {
                    assert(r[i].0 == prev[i].0);
                    assert(r[j].0 == prev[j].0);
                }
            }
            lemma_lookup(r, k);
            if k == e.0 {
                assert(r[p].0 == k);
            } else if has_key(prev, k) {
                let q = choose|q: int| 0 <= q < prev.len() && #[trigger] prev[q].0 == k;
                assert(r[q].0 == k);
            } else {
                assert(!has_key(r, k)) by {
                    if has_key(r, k) {
                        let q = choose|q: int| 0 <= q < r.len() && #[trigger] r[q].0 == k;
                        assert(prev[q].0 == k);
                    }
                }
            }
        } else {
            assert(r == prev.push(e));
            assert(!has_key(prev, e.0));
            assert(keys_unique(r)) by {
                assert forall|i: int, j: int| 0 <= i < j < r.len() implies #[trigger] r[i].0
                    != #[trigger] r[j].0 by {
                    if j == prev.len() {
                        assert(prev[i].0 == r[i].0);
                    } else {
                        assert(r[i].0 == prev[i].0);
                        assert(r[j].0 == prev[j].0);
                    }
                }
            }
            lemma_lookup(r, k);
            if k == e.0 {
                assert(r[prev.len() as int].0 == k);
            } else if has_key(prev, k) {
                let q = choose|q: int| 0 <= q < prev.len() && #[trigger] prev[q].0 == k;
                assert(r[q].0 == k);
            } else {
                assert(!has_key(r, k)) by {
                    if has_key(r, k) {
                        let q = choose|q: int| 0 <= q < r.len() && #[trigger] r[q].0 == k;
                        assert(q != prev.len());
                        assert(prev[q].0 == k);
                    }
                }
            }
        }
    } else {
        lemma_lookup(xs, k);
        assert(!has_key(xs, k));
    }
}

/// A value that is neither a sequence nor a table.
pub open spec fn is_scalar(d: Doc) -> bool {
    !(d is Arr) && !(d is Table)
}

/// Merging a single table with unique keys gives that table.
pub proof fn lemma_merge_single_document(es: Seq<(Seq<char>, Doc)>)
    requires
        keys_unique(es),
    ensures
        merge_all(seq![Doc::Table(es)]) == Doc::Table(es),
{
    let ds = seq![Doc::Table(es)];
    let empty = Seq::<(Seq<char>, Doc)>::empty();
    assert(ds.subrange(0, 0).len() == 0);
    assert(merge_all(ds.subrange(0, 0)) == Doc::Table(empty));
    assert(ds[0] == Doc::Table(es));
    lemma_merge_into_empty(es);
    assert(merge_doc(Doc::Table(empty), Doc::Table(es)) == Doc::Table(es));
}

/// Merging two tables `a` then `b`, both with unique keys: the result is a table with
/// unique keys, whose keys are those of `a` and `b`; a key of `b` gets its value from
/// `b` merged over `a`'s, and a key of `a` alone keeps its value.
pub proof fn lemma_merge_two_tables(
    a: Seq<(Seq<char>, Doc)>,
    b: Seq<(Seq<char>, Doc)>,
    k: Seq<char>,
)
    requires
        keys_unique(a),
        keys_unique(b),
    ensures
        merge_all(seq![Doc::Table(a), Doc::Table(b)]) == Doc::Table(merge_entries(a, b)),
        keys_unique(merge_entries(a, b)),
        lookup(merge_entries(a, b), k) == merged_lookup(lookup(a, k), lookup(b, k)),
        lookup(merge_entries(a, b), k) is Some <==> (lookup(a, k) is Some || lookup(b, k) is Some),
{
    let ds = seq![Doc::Table(a), Doc::Table(b)];
    assert(ds.subrange(0, 1) =~= seq![Doc::Table(a)]);
    lemma_merge_single_document(a);
    lemma_merge_entries_lookup(a, b, k);
}

/// Where the later of two tables sets key `k` to a scalar, the merged table holds
/// that scalar under `k`, whatever the earlier table held there.
pub proof fn lemma_precedence(
    a: Seq<(Seq<char>, Doc)>,
    b: Seq<(Seq<char>, Doc)>,
    k: Seq<char>,
    v: Doc,
)
    requires
        keys_unique(a),
        keys_unique(b),
        lookup(b, k) == Some(v),
        is_scalar(v),
    ensures
        merge_all(seq![Doc::Table(a), Doc::Table(b)]) == Doc::Table(merge_entries(a, b)),
        lookup(merge_entries(a, b), k) == Some(v),
{
    lemma_merge_two_tables(a, b, k);
}

/// Every table in `d`, at every depth, has unique keys.
pub open spec fn well_formed(d: Doc) -> bool
    decreases d,
{
    match d {
        Doc::Arr(xs) => all_set(well_formed_flags(xs)),
        Doc::Table(es) => keys_unique(es) && all_set(entry_well_formed_flags(es)),
        _ => true,
    }
}

/// For each element of `xs`, whether it is well formed.
pub open spec fn well_formed_flags(xs: Seq<Doc>) -> Seq<bool>
    decreases xs,
{
    Seq::new(xs.len(), |i: int| 0 <= i < xs.len() && well_formed(xs[i]))
}

/// For each entry of `es`, whether its value is well formed.
pub open spec fn entry_well_formed_flags(es: Seq<(Seq<char>, Doc)>) -> Seq<bool>
    decreases es,
{
    Seq::new(es.len(), |i: int| 0 <= i < es.len() && well_formed(es[i].1))
}

/// Merging well-formed documents gives a well-formed document: no table ever gets
/// a duplicate key.
pub proof fn lemma_merge_well_formed(acc: Doc, inc: Doc)
    requires
        well_formed(acc),
        well_formed(inc),
    ensures
        well_formed(merge_doc(acc, inc)),
    decreases inc, 1int,
{
    match inc {
        Doc::Arr(xs) => match acc {
            Doc::Arr(ys) => {
                let zs = merge_arrays(ys, xs);
                assert(merge_doc(acc, inc) == Doc::Arr(zs));
                assert(all_set(well_formed_flags(xs)));
                assert(all_set(well_formed_flags(ys)));
                assert forall|i: int| 0 <= i < zs.len() implies #[trigger] well_formed_flags(
                    zs,
                )[i] by {
                    if i < xs.len() {
                        assert(well_formed_flags(xs)[i]);
                        if i < ys.len() {
                            assert(well_formed_flags(ys)[i]);
                            assert(decreases_to!(inc => inc->Arr_0));
                            lemma_merge_well_formed(ys[i], xs[i]);
                        }
                    } else {
                        assert(well_formed_flags(ys)[i]);
                    }
                }
                assert(all_set(well_formed_flags(zs)));
            },
            _ => {
                assert(merge_doc(acc, inc) == inc);
            },
        },
        Doc::Table(xs) => match acc {
            Doc::Table(ys) => {
                assert(decreases_to!(inc => inc->Table_0));
                lemma_merge_entries_well_formed(ys, xs);
            },
            _ => {},
        },
        _ => {},
    }
}

/// Key-wise merge of well-formed tables keeps keys unique and values well formed.
proof fn lemma_merge_entries_well_formed(ys: Seq<(Seq<char>, Doc)>, xs: Seq<(Seq<char>, Doc)>)
    requires
        well_formed(Doc::Table(ys)),
        well_formed(Doc::Table(xs)),
    ensures
        well_formed(Doc::Table(merge_entries(ys, xs))),
    decreases xs, 0int,
{
    let r = merge_entries(ys, xs);
    lemma_merge_entries_lookup(ys, xs, Seq::empty());
    if xs.len() > 0 {
        let n = xs.len() - 1;
        let init = xs.subrange(0, n);
        let e = xs[n];
        assert(keys_unique(init)) by {
            assert forall|i: int, j: int| 0 <= i < j < init.len() implies #[trigger] init[i].0
                != #[trigger] init[j].0 by {
                assert(xs[i].0 != xs[j].0);
            }
        }
        assert(all_set(entry_well_formed_flags(xs)));
        assert(all_set(entry_well_formed_flags(init))) by {
            assert forall|i: int| 0 <= i < entry_well_formed_flags(init).len() implies #[trigger] entry_well_formed_flags(
                init,
            )[i] by {
                assert(entry_well_formed_flags(xs)[i]);
                assert(init[i] == xs[i]);
            }
        }
        assert(well_formed(Doc::Table(init)));
        lemma_merge_entries_well_formed(ys, init);
        let prev = merge_entries(ys, init);
        assert(well_formed(Doc::Table(prev)));
        assert(all_set(entry_well_formed_flags(prev)));
        assert(entry_well_formed_flags(xs)[n]);
        let p = key_index(prev, e.0);
        if p >= 0 {
            assert(is_first_key(prev, e.0, p));
            assert(entry_well_formed_flags(prev)[p]);
            assert(decreases_to!(xs => xs[n]));
            lemma_merge_well_formed(prev[p].1, e.1);
            assert(r == prev.update(p, (prev[p].0, merge_doc(prev[p].1, e.1))));
            assert forall|i: int| 0 <= i < r.len() implies #[trigger] entry_well_formed_flags(
                r,
            )[i] by {
                if i != p {
                    assert(entry_well_formed_flags(prev)[i]);
                }
            }
        } else {
            assert(r == prev.push(e));
            assert forall|i: int| 0 <= i < r.len() implies #[trigger] entry_well_formed_flags(
                r,
            )[i] by {
                if i < prev.len() {
                    assert(entry_well_formed_flags(prev)[i]);
                }
            }
        }
        assert(keys_unique(r));
        assert(all_set(entry_well_formed_flags(r)));
    }
}

} // verus!
