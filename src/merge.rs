use vstd::prelude::*;
use vstd::set_lib::{lemma_int_range, lemma_len_subset, lemma_map_size, set_int_range};
use crate::text::{chr, decimal_text, push_char, push_decimal};

verus! {

/// What one key of a sheet result holds: a value that an unlabeled
/// directive produced, or the group of values gathered under a label.
pub enum Field<V> {
    Leaf(V),
    Group(Vec<(String, V)>),
}

/// Mathematical model of a [`Field`]: keys as character sequences.
pub ghost enum FieldModel<V> {
    Leaf(V),
    Group(Seq<(Seq<char>, V)>),
}

/// Keyed entries seen through the views of their keys, each value mapped by `f`.
pub open spec fn entries_model<X, Y>(s: Seq<(String, X)>, f: spec_fn(X) -> Y) -> Seq<(Seq<char>, Y)> {
    s.map_values(|e: (String, X)| (e.0@, f(e.1)))
}

/// The keys of model entries.
pub open spec fn keys_of<Y>(s: Seq<(Seq<char>, Y)>) -> Seq<Seq<char>> {
    s.map_values(|e: (Seq<char>, Y)| e.0)
}

/// The views of the keys of entries.
pub open spec fn key_views<X>(s: Seq<(String, X)>) -> Seq<Seq<char>> {
    s.map_values(|e: (String, X)| e.0@)
}

pub open spec fn group_model<V>(g: Seq<(String, V)>) -> Seq<(Seq<char>, V)> {
    entries_model(g, |v: V| v)
}

pub open spec fn field_model<V>(f: Field<V>) -> FieldModel<V> {
    match f {
        Field::Leaf(v) => FieldModel::Leaf(v),
        Field::Group(g) => FieldModel::Group(group_model(g@)),
    }
}

/// Model of a sheet result: its keys in order, with what each holds.
pub open spec fn record_model<V>(r: Seq<(String, Field<V>)>) -> Seq<(Seq<char>, FieldModel<V>)> {
    entries_model(r, |f: Field<V>| field_model(f))
}

/// Model of the per-sheet part of a file result: each sheet name with its record.
pub open spec fn sheets_model<V>(s: Seq<(String, Vec<(String, Field<V>)>)>) -> Seq<
    (Seq<char>, Seq<(Seq<char>, FieldModel<V>)>),
> {
    entries_model(s, |r: Vec<(String, Field<V>)>| record_model(r@))
}

/// Position of the first occurrence of `k` in `keys`, or -1.
pub open spec fn key_index(keys: Seq<Seq<char>>, k: Seq<char>) -> int
    decreases keys.len(),
{
    if keys.len() == 0 {
        -1
    } else if keys[0] == k {
        0
    } else {
        let r = key_index(keys.drop_first(), k);
        if r < 0 {
            -1
        } else {
            r + 1
        }
    }
}

/// Sets `k` to `x`: in place where `k` is present, else at the end.
pub open spec fn upsert<Y>(s: Seq<(Seq<char>, Y)>, k: Seq<char>, x: Y) -> Seq<(Seq<char>, Y)> {
    let i = key_index(keys_of(s), k);
    if i >= 0 {
        s.update(i, (k, x))
    } else {
        s.push((k, x))
    }
}

/// Sets each key of `out` in turn, so a later entry wins over an earlier one.
pub open spec fn upsert_all<Y>(s: Seq<(Seq<char>, Y)>, out: Seq<(Seq<char>, Y)>) -> Seq<
    (Seq<char>, Y),
>
    decreases out.len(),
{
    if out.len() == 0 {
        s
    } else {
        let a = upsert_all(s, out.drop_last());
        upsert(a, out.last().0, out.last().1)
    }
}

proof fn lemma_key_index(keys: Seq<Seq<char>>, k: Seq<char>, i: int)
    requires
        0 <= i <= keys.len(),
        forall|j: int| 0 <= j < i ==> keys[j] != k,
        i == keys.len() || keys[i] == k,
    ensures
        key_index(keys, k) == if i == keys.len() {
            -1
        } else {
            i
        },
    decreases keys.len(),
{
    if keys.len() > 0 && i > 0 {
        assert(keys[0] != k);
        assert forall|j: int| 0 <= j < i - 1 implies keys.drop_first()[j] != k by {
            assert(keys.drop_first()[j] == keys[j + 1]);
        }
        lemma_key_index(keys.drop_first(), k, i - 1);
    }
}

proof fn lemma_key_index_range(keys: Seq<Seq<char>>, k: Seq<char>)
    ensures
        -1 <= key_index(keys, k) < keys.len(),
        key_index(keys, k) >= 0 ==> keys[key_index(keys, k)] == k,
        key_index(keys, k) < 0 ==> !keys.contains(k),
    decreases keys.len(),
{
    if keys.len() > 0 && keys[0] != k {
        lemma_key_index_range(keys.drop_first(), k);
        if key_index(keys, k) < 0 {
            assert forall|j: int| 0 <= j < keys.len() implies keys[j] != k by {
                if j > 0 {
                    assert(keys[j] == keys.drop_first()[j - 1]);
                }
            }
        }
    }
}

/// Position of the first entry whose key is `key`.
pub fn find_key<X>(entries: &Vec<(String, X)>, key: &String) -> (r: Option<usize>)
    ensures
        match r {
            Some(i) => i as int == key_index(key_views(entries@), key@),
            None => key_index(key_views(entries@), key@) == -1,
        },
        r is None <==> !key_views(entries@).contains(key@),
{
    let ghost keys = key_views(entries@);
    let mut i: usize = 0;
    while i < entries.len()
        invariant
            0 <= i <= entries@.len(),
            keys == key_views(entries@),
            forall|j: int| 0 <= j < i ==> keys[j] != key@,
        decreases entries.len() - i,
    {
        if entries[i].0 == *key {
            proof {
                lemma_key_index(keys, key@, i as int);
                lemma_key_index_range(keys, key@);
            }
            return Some(i);
        }
        i = i + 1;
    }
    proof {
        lemma_key_index(keys, key@, i as int);
        lemma_key_index_range(keys, key@);
    }
    None
}

proof fn lemma_model_keys<X, Y>(s: Seq<(String, X)>, f: spec_fn(X) -> Y)
    ensures
        keys_of(entries_model(s, f)) == key_views(s),
{
    assert(keys_of(entries_model(s, f)) =~= key_views(s));
}

/// Sets the key of `e` to its value, on the entries themselves.
pub open spec fn upsert_raw<X>(s: Seq<(String, X)>, e: (String, X)) -> Seq<(String, X)> {
    let i = key_index(key_views(s), e.0@);
    if i >= 0 {
        s.update(i, e)
    } else {
        s.push(e)
    }
}

proof fn lemma_upsert_model<X, Y>(s: Seq<(String, X)>, e: (String, X), f: spec_fn(X) -> Y)
    ensures
        entries_model(upsert_raw(s, e), f) == upsert(entries_model(s, f), e.0@, f(e.1)),
{
    lemma_model_keys(s, f);
    lemma_key_index_range(key_views(s), e.0@);
    assert(entries_model(upsert_raw(s, e), f) =~= upsert(entries_model(s, f), e.0@, f(e.1)));
}

fn upsert_entry<X>(entries: &mut Vec<(String, X)>, e: (String, X))
    ensures
        final(entries)@ == upsert_raw(old(entries)@, e),
{
    proof {
        lemma_key_index_range(key_views(entries@), e.0@);
    }
    match find_key(entries, &e.0) {
        Some(i) => {
            entries.remove(i);
            entries.insert(i, e);
            assert(entries@ =~= upsert_raw(old(entries)@, e));
        },
        None => {
            entries.push(e);
        },
    }
}

/// Sets each entry of `out` in turn, on the entries themselves.
pub open spec fn upsert_all_raw<X>(s: Seq<(String, X)>, out: Seq<(String, X)>) -> Seq<(String, X)>
    decreases out.len(),
{
    if out.len() == 0 {
        s
    } else {
        upsert_raw(upsert_all_raw(s, out.drop_last()), out.last())
    }
}

proof fn lemma_upsert_all_model<X, Y>(s: Seq<(String, X)>, out: Seq<(String, X)>, f: spec_fn(X) -> Y)
    ensures
        entries_model(upsert_all_raw(s, out), f) == upsert_all(entries_model(s, f), entries_model(out, f)),
    decreases out.len(),
{
    if out.len() > 0 {
        lemma_upsert_all_model(s, out.drop_last(), f);
        lemma_upsert_model(upsert_all_raw(s, out.drop_last()), out.last(), f);
        assert(entries_model(out, f).drop_last() =~= entries_model(out.drop_last(), f));
    }
}

fn upsert_entries<X>(entries: &mut Vec<(String, X)>, out: Vec<(String, X)>)
    ensures
        final(entries)@ == upsert_all_raw(old(entries)@, out@),
{
    let ghost out0 = out@;
    let ghost start = entries@;
    let mut out = out;
    let mut i: usize = 0;
    let n = out.len();
    while i < n
        invariant
            n == out0.len(),
            0 <= i <= n,
            out@ == out0.skip(i as int),
            entries@ == upsert_all_raw(start, out0.take(i as int)),
        decreases n - i,
    {
        let e = out.remove(0);
        assert(out0.take(i as int + 1).drop_last() =~= out0.take(i as int));
        assert(out0.skip(i as int).drop_first() =~= out0.skip(i as int + 1));
        upsert_entry(entries, e);
        i = i + 1;
    }
    assert(out0.take(n as int) =~= out0);
}

/// `k` followed by an underscore and the decimal rendering of `n`.
pub open spec fn suffixed(k: Seq<char>, n: nat) -> Seq<char> {
    k + seq!['_'] + decimal_text(n)
}

/// The first of `k_n`, `k_(n+1)`, ... that `keys` does not hold.
pub open spec fn fresh_from(keys: Seq<Seq<char>>, k: Seq<char>, n: nat) -> Seq<char>
    decreases keys.len() - n,
{
    if n >= keys.len() || !keys.contains(suffixed(k, n)) {
        suffixed(k, n)
    } else {
        fresh_from(keys, k, n + 1)
    }
}

/// `k` where `keys` does not hold it, else the first free `k_1`, `k_2`, ...
pub open spec fn fresh_key_spec(keys: Seq<Seq<char>>, k: Seq<char>) -> Seq<char> {
    if !keys.contains(k) {
        k
    } else {
        fresh_from(keys, k, 1)
    }
}

/// Adds the outputs of an unlabeled directive, one key after another, each
/// under a key that the record does not hold yet.
pub open spec fn merge_unlabeled_spec<V>(
    acc: Seq<(Seq<char>, FieldModel<V>)>,
    out: Seq<(Seq<char>, FieldModel<V>)>,
) -> Seq<(Seq<char>, FieldModel<V>)>
    decreases out.len(),
{
    if out.len() == 0 {
        acc
    } else {
        let a = merge_unlabeled_spec(acc, out.drop_last());
        a.push((fresh_key_spec(keys_of(a), out.last().0), out.last().1))
    }
}

/// Gathers the outputs of a labeled directive under the label: into the
/// group already there (a later key wins), else into a new group, which
/// takes the place of a plain value of that key.
pub open spec fn merge_labeled_spec<V>(
    acc: Seq<(Seq<char>, FieldModel<V>)>,
    label: Seq<char>,
    out: Seq<(Seq<char>, V)>,
) -> Seq<(Seq<char>, FieldModel<V>)> {
    let i = key_index(keys_of(acc), label);
    if i >= 0 {
        match acc[i].1 {
            FieldModel::Group(g) => acc.update(i, (label, FieldModel::Group(upsert_all(g, out)))),
            FieldModel::Leaf(_) => acc.update(
                i,
                (label, FieldModel::Group(upsert_all(Seq::empty(), out))),
            ),
        }
    } else {
        acc.push((label, FieldModel::Group(upsert_all(Seq::empty(), out))))
    }
}

/// What one directive returned: entries to add one by one under keys of
/// their own (a value that is itself a keyed object may come as a group,
/// which a later labeled output can then merge into), or entries to gather
/// under a label.
pub enum DirectiveOutput<V> {
    Unlabeled(Vec<(String, Field<V>)>),
    Labeled(String, Vec<(String, V)>),
}

/// Mathematical model of a [`DirectiveOutput`].
pub ghost enum OutputModel<V> {
    Unlabeled(Seq<(Seq<char>, FieldModel<V>)>),
    Labeled(Seq<char>, Seq<(Seq<char>, V)>),
}

pub open spec fn output_model<V>(o: DirectiveOutput<V>) -> OutputModel<V> {
    match o {
        DirectiveOutput::Unlabeled(out) => OutputModel::Unlabeled(record_model(out@)),
        DirectiveOutput::Labeled(l, out) => OutputModel::Labeled(l@, group_model(out@)),
    }
}

/// Merges one directive's output into a sheet's record.
pub open spec fn merge_output_spec<V>(
    acc: Seq<(Seq<char>, FieldModel<V>)>,
    o: OutputModel<V>,
) -> Seq<(Seq<char>, FieldModel<V>)> {
    match o {
        OutputModel::Unlabeled(out) => merge_unlabeled_spec(acc, out),
        OutputModel::Labeled(label, out) => merge_labeled_spec(acc, label, out),
    }
}

/// Merges a sheet's record into a file's sheets: key by key into the record
/// already held for that sheet name (a later key wins), else as a new sheet.
pub open spec fn merge_sheet_spec<V>(
    sheets: Seq<(Seq<char>, Seq<(Seq<char>, FieldModel<V>)>)>,
    name: Seq<char>,
    rec: Seq<(Seq<char>, FieldModel<V>)>,
) -> Seq<(Seq<char>, Seq<(Seq<char>, FieldModel<V>)>)> {
    let i = key_index(keys_of(sheets), name);
    if i >= 0 {
        sheets.update(i, (name, upsert_all(sheets[i].1, rec)))
    } else {
        sheets.push((name, rec))
    }
}

fn suffixed_key(k: &String, n: usize) -> (r: String)
    ensures
        r@ == suffixed(k@, n as nat),
{
    let mut r = k.clone();
    push_char(&mut r, '_');
    push_decimal(&mut r, n as u64);
    r
}

/// A key for `key` that none of the entries has: `key` itself where it is
/// free, else `key_1`, `key_2`, ... whichever comes first.
pub fn fresh_key<X>(entries: &Vec<(String, X)>, key: &String) -> (r: String)
    ensures
        r@ == fresh_key_spec(key_views(entries@), key@),
{
    let ghost keys = key_views(entries@);
    if find_key(entries, key).is_none() {
        return key.clone();
    }
    let mut n: usize = 1;
    loop
        invariant
            keys == key_views(entries@),
            keys.contains(key@),
            1 <= n <= entries@.len(),
            fresh_from(keys, key@, 1) == fresh_from(keys, key@, n as nat),
        decreases entries@.len() - n,
    {
        let cand = suffixed_key(key, n);
        if n >= entries.len() || find_key(entries, &cand).is_none() {
            return cand;
        }
        n = n + 1;
    }
}

/// Adds the output of an unlabeled directive to a sheet's record: each key
/// goes in under `fresh_key`, so nothing already there is overwritten.
pub fn merge_unlabeled<V>(acc: &mut Vec<(String, Field<V>)>, out: Vec<(String, Field<V>)>)
    ensures
        record_model(final(acc)@) == merge_unlabeled_spec(record_model(old(acc)@), record_model(out@)),
{
    let ghost out0 = out@;
    let ghost start = record_model(acc@);
    let mut out = out;
    let mut i: usize = 0;
    let n = out.len();
    while i < n
        invariant
            n == out0.len(),
            0 <= i <= n,
            out@ == out0.skip(i as int),
            record_model(acc@) == merge_unlabeled_spec(start, record_model(out0.take(i as int))),
        decreases n - i,
    {
        let (k, v) = out.remove(0);
        assert(record_model(out0.take(i as int + 1)).drop_last() =~= record_model(out0.take(i as int)));
        assert(out0.skip(i as int).drop_first() =~= out0.skip(i as int + 1));
        proof {
            lemma_model_keys(acc@, |f: Field<V>| field_model(f));
        }
        let fk = fresh_key(acc, &k);
        acc.push((fk, v));
        assert(record_model(acc@) =~= merge_unlabeled_spec(start, record_model(out0.take(i as int + 1))));
        i = i + 1;
    }
    assert(out0.take(n as int) =~= out0);
}

/// Gathers the output of a labeled directive under its label in a sheet's
/// record.
pub fn merge_labeled<V>(acc: &mut Vec<(String, Field<V>)>, label: String, out: Vec<(String, V)>)
    ensures
        record_model(final(acc)@) == merge_labeled_spec(record_model(old(acc)@), label@, group_model(out@)),
{
    proof {
        lemma_model_keys(acc@, |f: Field<V>| field_model(f));
        lemma_key_index_range(key_views(acc@), label@);
        lemma_upsert_all_model(Seq::<(String, V)>::empty(), out@, |v: V| v);
    }
    match find_key(acc, &label) {
        Some(i) => {
            let (k, f) = acc.remove(i);
            let mut g = match f {
                Field::Group(g) => g,
                Field::Leaf(_) => Vec::new(),
            };
            proof {
                lemma_upsert_all_model(g@, out@, |v: V| v);
                assert(group_model(Seq::<(String, V)>::empty()) =~= Seq::empty());
            }
            upsert_entries(&mut g, out);
            acc.insert(i, (k, Field::Group(g)));
            assert(record_model(acc@) =~= merge_labeled_spec(record_model(old(acc)@), label@, group_model(out@)));
        },
        None => {
            let mut g = Vec::new();
            proof {
                assert(group_model(Seq::<(String, V)>::empty()) =~= Seq::empty());
            }
            upsert_entries(&mut g, out);
            acc.push((label, Field::Group(g)));
            assert(record_model(acc@) =~= merge_labeled_spec(record_model(old(acc)@), label@, group_model(out@)));
        },
    }
}

/// Merges one directive's output into a sheet's record.
pub fn merge_output<V>(acc: &mut Vec<(String, Field<V>)>, o: DirectiveOutput<V>)
    ensures
        record_model(final(acc)@) == merge_output_spec(record_model(old(acc)@), output_model(o)),
{
    match o {
        DirectiveOutput::Unlabeled(out) => merge_unlabeled(acc, out),
        DirectiveOutput::Labeled(label, out) => merge_labeled(acc, label, out),
    }
}

/// Merges a sheet's record into the per-sheet part of a file result.
pub fn merge_sheet<V>(
    sheets: &mut Vec<(String, Vec<(String, Field<V>)>)>,
    name: String,
    rec: Vec<(String, Field<V>)>,
)
    ensures
        sheets_model(final(sheets)@) == merge_sheet_spec(sheets_model(old(sheets)@), name@, record_model(rec@)),
{
    proof {
        lemma_model_keys(sheets@, |r: Vec<(String, Field<V>)>| record_model(r@));
        lemma_key_index_range(key_views(sheets@), name@);
    }
    match find_key(sheets, &name) {
        Some(i) => {
            let (k, mut r) = sheets.remove(i);
            proof {
                lemma_upsert_all_model(r@, rec@, |f: Field<V>| field_model(f));
            }
            upsert_entries(&mut r, rec);
            sheets.insert(i, (k, r));
            assert(sheets_model(sheets@) =~= merge_sheet_spec(sheets_model(old(sheets)@), name@, record_model(rec@)));
        },
        None => {
            sheets.push((name, rec));
            assert(sheets_model(sheets@) =~= merge_sheet_spec(sheets_model(old(sheets)@), name@, record_model(rec@)));
        },
    }
}

/// Unlabeled merging never overwrites: every entry already in the record
/// stays where and as it was, and each output value is added after them as
/// an entry of its own, in the order of the output.
pub proof fn lemma_unlabeled_merge_keeps<V>(acc: Seq<(Seq<char>, FieldModel<V>)>, out: Seq<(Seq<char>, FieldModel<V>)>)
    ensures
        merge_unlabeled_spec(acc, out).len() == acc.len() + out.len(),
        forall|i: int| 0 <= i < acc.len() ==> #[trigger] merge_unlabeled_spec(acc, out)[i] == acc[i],
        forall|j: int|
            0 <= j < out.len() ==> #[trigger] merge_unlabeled_spec(acc, out)[acc.len() + j].1
                == out[j].1,
    decreases out.len(),
{
    if out.len() > 0 {
        lemma_unlabeled_merge_keeps(acc, out.drop_last());
        let a = merge_unlabeled_spec(acc, out.drop_last());
        assert forall|j: int| 0 <= j < out.len() - 1 implies #[trigger] merge_unlabeled_spec(acc, out)[acc.len() + j].1
            == out[j].1 by {
            assert(a[acc.len() + j].1 == out.drop_last()[j].1);
        }
    }
}

/// A key that a record already holds, and only that key, comes back with
/// the suffix `_1` when an unlabeled directive outputs it again.
pub proof fn lemma_repeated_key_suffix<V>(acc: Seq<(Seq<char>, FieldModel<V>)>, k: Seq<char>, v: FieldModel<V>)
    requires
        keys_of(acc) == seq![k],
    ensures
        keys_of(merge_unlabeled_spec(acc, seq![(k, v)])) == seq![k, suffixed(k, 1)],
{
    let out = seq![(k, v)];
    assert(out.drop_last() =~= Seq::<(Seq<char>, FieldModel<V>)>::empty());
    assert(keys_of(acc).contains(k)) by {
        assert(keys_of(acc)[0] == k);
    }
    assert(merge_unlabeled_spec(acc, out.drop_last()) == acc);
    assert(out.last() == (k, v));
    assert(keys_of(acc).len() == 1);
    assert(fresh_key_spec(keys_of(acc), k) == suffixed(k, 1));
    let r = merge_unlabeled_spec(acc, out);
    assert(r == acc.push((suffixed(k, 1), v)));
    assert(acc[0].0 == k);
    assert(keys_of(r) =~= seq![k, suffixed(k, 1)]);
}

/// A sheet's record after its first `n` directives ran in order: `outs[i]`
/// is what directive `i` returned, or `None` where it named no supported
/// function and was passed over.
pub open spec fn record_from_outputs<V>(outs: Seq<Option<OutputModel<V>>>, n: nat) -> Seq<
    (Seq<char>, FieldModel<V>),
>
    decreases n,
{
    if n == 0 {
        Seq::empty()
    } else {
        let a = record_from_outputs(outs, (n - 1) as nat);
        match outs[n - 1] {
            Some(o) => merge_output_spec(a, o),
            None => a,
        }
    }
}

/// Models of the outputs of a sheet's directives.
pub open spec fn outputs_model<V>(outs: Seq<Option<DirectiveOutput<V>>>) -> Seq<Option<OutputModel<V>>> {
    outs.map_values(
        |o: Option<DirectiveOutput<V>>|
            match o {
                Some(d) => Some(output_model(d)),
                None => None,
            },
    )
}

/// Builds a sheet's record from the outputs of its directives, in order.
pub fn sheet_record<V>(outputs: Vec<Option<DirectiveOutput<V>>>) -> (r: Vec<(String, Field<V>)>)
    ensures
        record_model(r@) == record_from_outputs(outputs_model(outputs@), outputs@.len()),
{
    let ghost o0 = outputs@;
    let ghost om = outputs_model(o0);
    let mut rest = outputs;
    let mut acc: Vec<(String, Field<V>)> = Vec::new();
    let n = rest.len();
    let mut i: usize = 0;
    assert(record_model(acc@) =~= Seq::empty());
    while i < n
        invariant
            o0.len() == n,
            0 <= i <= n,
            rest@ == o0.skip(i as int),
            om == outputs_model(o0),
            record_model(acc@) == record_from_outputs(om, i as nat),
        decreases n - i,
    {
        let o = rest.remove(0);
        assert(o == o0[i as int]);
        assert(o0.skip(i as int).drop_first() =~= o0.skip(i as int + 1));
        match o {
            Some(out) => {
                merge_output(&mut acc, out);
            },
            None => {},
        }
        i = i + 1;
    }
    acc
}

proof fn lemma_decimal_text_nonempty(n: nat)
    ensures
        decimal_text(n).len() >= 1,
    decreases n,
{
    if n >= 10 {
        lemma_decimal_text_nonempty(n / 10);
    }
}

proof fn lemma_decimal_text_injective(a: nat, b: nat)
    requires
        decimal_text(a) == decimal_text(b),
    ensures
        a == b,
    decreases a,
{
    if a >= 10 {
        lemma_decimal_text_nonempty(a / 10);
    }
    if b >= 10 {
        lemma_decimal_text_nonempty(b / 10);
    }
    if a < 10 && b < 10 {
        assert(decimal_text(a)[0] == chr(a as int + 48));
        assert(decimal_text(b)[0] == chr(b as int + 48));
        assert((chr(a as int + 48) as int) == a + 48);
        assert((chr(b as int + 48) as int) == b + 48);
    } else if a >= 10 && b >= 10 {
        assert((chr((a % 10) as int + 48) as int) == a % 10 + 48);
        assert((chr((b % 10) as int + 48) as int) == b % 10 + 48);
        assert(decimal_text(a).last() == chr((a % 10) as int + 48));
        assert(decimal_text(b).last() == chr((b % 10) as int + 48));
        assert(decimal_text(a).drop_last() =~= decimal_text(a / 10));
        assert(decimal_text(b).drop_last() =~= decimal_text(b / 10));
        lemma_decimal_text_injective(a / 10, b / 10);
        assert(a % 10 == b % 10);
        assert(a == 10 * (a / 10) + a % 10);
        assert(b == 10 * (b / 10) + b % 10);
    } else if a < 10 {
        assert(decimal_text(a).len() == 1);
        assert(decimal_text(b).len() == decimal_text(b / 10).len() + 1);
    } else {
        assert(decimal_text(b).len() == 1);
        assert(decimal_text(a).len() == decimal_text(a / 10).len() + 1);
    }
}

/// The `n`-th key tried for `k`: `k` itself, then `k_1`, `k_2`, ...
spec fn candidate(k: Seq<char>, n: int) -> Seq<char> {
    if n <= 0 {
        k
    } else {
        suffixed(k, n as nat)
    }
}

proof fn lemma_candidate_injective(k: Seq<char>, a: int, b: int)
    requires
        0 <= a,
        0 <= b,
        candidate(k, a) == candidate(k, b),
    ensures
        a == b,
{
    if a > 0 {
        lemma_decimal_text_nonempty(a as nat);
    }
    if b > 0 {
        lemma_decimal_text_nonempty(b as nat);
    }
    if a > 0 && b > 0 {
        let start = k.len() as int + 1;
        assert(suffixed(k, a as nat).subrange(start, suffixed(k, a as nat).len() as int) =~= decimal_text(a as nat));
        assert(suffixed(k, b as nat).subrange(start, suffixed(k, b as nat).len() as int) =~= decimal_text(b as nat));
        lemma_decimal_text_injective(a as nat, b as nat);
    } else if a > 0 || b > 0 {
        assert(candidate(k, a).len() != candidate(k, b).len());
    }
}

proof fn lemma_candidates_not_all_taken(keys: Seq<Seq<char>>, k: Seq<char>)
    ensures
        exists|j: int| 0 <= j <= keys.len() && !keys.contains(#[trigger] candidate(k, j)),
{
    if forall|j: int| 0 <= j <= keys.len() ==> keys.contains(#[trigger] candidate(k, j)) {
        lemma_all_candidates_taken_impossible(keys, k);
    }
}

proof fn lemma_all_candidates_taken_impossible(keys: Seq<Seq<char>>, k: Seq<char>)
    requires
        forall|j: int| 0 <= j <= keys.len() ==> keys.contains(#[trigger] candidate(k, j)),
    ensures
        keys.len() + 1 <= keys.len(),
{
    let n = keys.len() as int;
    let range = set_int_range(0, n + 1);
    let f = |j: int| candidate(k, j);
    lemma_int_range(0, n + 1);
    assert(vstd::relations::injective_on(f, range)) by {
        assert forall|a: int, b: int| range.contains(a) && range.contains(b) && #[trigger] f(a) == #[trigger] f(b) implies a == b by {
            lemma_candidate_injective(k, a, b);
        }
    }
    lemma_map_size(range, range.map(f), f);
    assert(range.map(f).subset_of(keys.to_set())) by {
        assert forall|x: Seq<char>| range.map(f).contains(x) implies keys.to_set().contains(x) by {
            let j = choose|j: int| range.contains(j) && f(j) == x;
            assert(keys.contains(candidate(k, j)));
        }
    }
    keys.lemma_cardinality_of_set();
    lemma_len_subset(range.map(f), keys.to_set());
}

proof fn lemma_fresh_from_is_new(keys: Seq<Seq<char>>, k: Seq<char>, n: nat)
    requires
        1 <= n <= keys.len(),
        keys.contains(k),
        forall|j: int| 1 <= j < n ==> keys.contains(#[trigger] candidate(k, j)),
    ensures
        !keys.contains(fresh_from(keys, k, n)),
    decreases keys.len() - n,
{
    if keys.contains(suffixed(k, n)) {
        if n >= keys.len() {
            assert forall|j: int| 0 <= j <= keys.len() implies keys.contains(#[trigger] candidate(k, j)) by {
                if j == n as int {
                    assert(candidate(k, j) == suffixed(k, n));
                }
            }
            lemma_candidates_not_all_taken(keys, k);
        } else {
            assert forall|j: int| 1 <= j < n + 1 implies keys.contains(#[trigger] candidate(k, j)) by {
                if j == n as int {
                    assert(candidate(k, j) == suffixed(k, n));
                }
            }
            lemma_fresh_from_is_new(keys, k, n + 1);
        }
    }
}

/// The key that an unlabeled output goes in under is one that the record
/// does not hold yet.
pub proof fn lemma_fresh_key_is_new(keys: Seq<Seq<char>>, k: Seq<char>)
    ensures
        !keys.contains(fresh_key_spec(keys, k)),
{
    if keys.contains(k) {
        lemma_fresh_from_is_new(keys, k, 1);
    }
}

/// Unlabeled merging never overwrites a key: a record whose keys are all
/// different keeps them all different, whatever the outputs hold.
pub proof fn lemma_unlabeled_keys_stay_unique<V>(acc: Seq<(Seq<char>, FieldModel<V>)>, out: Seq<(Seq<char>, FieldModel<V>)>)
    requires
        keys_of(acc).no_duplicates(),
    ensures
        keys_of(merge_unlabeled_spec(acc, out)).no_duplicates(),
    decreases out.len(),
{
    if out.len() > 0 {
        lemma_unlabeled_keys_stay_unique(acc, out.drop_last());
        let a = merge_unlabeled_spec(acc, out.drop_last());
        let fk = fresh_key_spec(keys_of(a), out.last().0);
        lemma_fresh_key_is_new(keys_of(a), out.last().0);
        let r = merge_unlabeled_spec(acc, out);
        assert(keys_of(r) =~= keys_of(a).push(fk));
    }
}

/// The outputs of the first `n` directives one after another, where none
/// is labeled; passed-over directives contribute nothing.
pub open spec fn concat_outputs<V>(outs: Seq<Option<OutputModel<V>>>, n: nat) -> Seq<(Seq<char>, FieldModel<V>)>
    decreases n,
{
    if n == 0 {
        Seq::empty()
    } else {
        concat_outputs(outs, (n - 1) as nat) + match outs[n - 1] {
            Some(OutputModel::Unlabeled(o)) => o,
            _ => Seq::empty(),
        }
    }
}

proof fn lemma_merge_unlabeled_append<V>(
    acc: Seq<(Seq<char>, FieldModel<V>)>,
    a: Seq<(Seq<char>, FieldModel<V>)>,
    b: Seq<(Seq<char>, FieldModel<V>)>,
)
    ensures
        merge_unlabeled_spec(merge_unlabeled_spec(acc, a), b) == merge_unlabeled_spec(acc, a + b),
    decreases b.len(),
{
    if b.len() == 0 {
        assert(a + b =~= a);
    } else {
        lemma_merge_unlabeled_append(acc, a, b.drop_last());
        assert((a + b).drop_last() =~= a + b.drop_last());
        assert((a + b).last() == b.last());
    }
}

/// A sheet whose directives are all unlabeled holds every value that they
/// returned, none overwritten: one entry per returned value, in the order
/// the directives and their outputs give, all under different keys, each
/// returned key kept where it was still free and suffixed otherwise.
pub proof fn lemma_unlabeled_directives<V>(outs: Seq<Option<OutputModel<V>>>, n: nat)
    requires
        n <= outs.len(),
        forall|i: int| 0 <= i < n ==> !((#[trigger] outs[i]) matches Some(OutputModel::Labeled(_, _))),
    ensures
        record_from_outputs(outs, n) == merge_unlabeled_spec(Seq::empty(), concat_outputs(outs, n)),
        record_from_outputs(outs, n).len() == concat_outputs(outs, n).len(),
        keys_of(record_from_outputs(outs, n)).no_duplicates(),
        forall|j: int|
            0 <= j < concat_outputs(outs, n).len() ==> #[trigger] record_from_outputs(outs, n)[j].1
                == concat_outputs(outs, n)[j].1,
    decreases n,
{
    if n > 0 {
        lemma_unlabeled_directives(outs, (n - 1) as nat);
        let prev = concat_outputs(outs, (n - 1) as nat);
        assert(!(outs[n - 1] matches Some(OutputModel::Labeled(_, _))));
        match outs[n - 1] {
            Some(OutputModel::Unlabeled(o)) => {
                lemma_merge_unlabeled_append(Seq::empty(), prev, o);
            },
            _ => {
                assert(prev + Seq::<(Seq<char>, FieldModel<V>)>::empty() =~= prev);
            },
        }
    }
    let e = Seq::<(Seq<char>, FieldModel<V>)>::empty();
    assert(keys_of(e).no_duplicates());
    lemma_unlabeled_keys_stay_unique(e, concat_outputs(outs, n));
    lemma_unlabeled_merge_keeps(e, concat_outputs(outs, n));
    let c = concat_outputs(outs, n);
    assert forall|j: int| 0 <= j < c.len() implies #[trigger] record_from_outputs(outs, n)[j].1 == c[j].1 by {
        assert(merge_unlabeled_spec(e, c)[e.len() + j].1 == c[j].1);
        assert(e.len() + j == j);
    }
}

} // verus!
