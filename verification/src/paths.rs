//! Dot-path flattening and unflattening between nested objects and flat maps.
use vstd::prelude::*;

use crate::text::views_of;
use crate::text::chars_eq;
use crate::text::chars_to_string;
use crate::text::split_char;
use crate::text::spec_split_char;
use crate::text::str_to_chars;
use crate::value::Value;
use crate::value::ValueView;
use crate::value::view_entries;
use crate::value::lemma_view_entries;
use crate::ZoonError;

verus! {

broadcast use vstd::std_specs::vec::group_vec_axioms, vstd::seq::group_seq_axioms;

/// The view of a flat row: ordered dot-path keys with scalar-or-opaque values.
pub open spec fn row_view(es: Seq<(Vec<char>, Value)>) -> Seq<(Seq<char>, ValueView)>
    decreases es,
{
    if es.len() == 0 {
        Seq::empty()
    } else {
        seq![(es[0].0@, es[0].1@)] + row_view(es.drop_first())
    }
}

/// The row view maps each entry to its view, position by position.
pub proof fn lemma_row_view(es: Seq<(Vec<char>, Value)>)
    ensures
        row_view(es).len() == es.len(),
        forall|i: int| 0 <= i < es.len() ==> #[trigger] row_view(es)[i] == (es[i].0@, es[i].1@),
    decreases es.len(),
{
    if es.len() > 0 {
        lemma_row_view(es.drop_first());
        assert(row_view(es) =~= seq![(es[0].0@, es[0].1@)] + row_view(es.drop_first()));
        assert forall|i: int| 0 <= i < es.len() implies #[trigger] row_view(es)[i] == (
        es[i].0@,
        es[i].1@,
        ) by {
            if i > 0 {
                assert(es.drop_first()[i - 1] == es[i]);
            }
        }
    }
}

/// The position of the first entry with the given key.
pub open spec fn spec_find_key(es: Seq<(Seq<char>, ValueView)>, k: Seq<char>) -> Option<int>
    decreases es.len(),
{
    if es.len() == 0 {
        None
    } else if es[0].0 == k {
        Some(0)
    } else {
        match spec_find_key(es.drop_first(), k) {
            Some(i) => Some(i + 1),
            None => None,
        }
    }
}

/// The found position is the first entry with the key, if any.
pub proof fn lemma_find_key(es: Seq<(Seq<char>, ValueView)>, k: Seq<char>)
    ensures
        match spec_find_key(es, k) {
            Some(i) => 0 <= i < es.len() && es[i].0 == k && forall|j: int|
                0 <= j < i ==> (#[trigger] es[j]).0 != k,
            None => forall|j: int| 0 <= j < es.len() ==> (#[trigger] es[j]).0 != k,
        },
    decreases es.len(),
{
    if es.len() > 0 && es[0].0 != k {
        lemma_find_key(es.drop_first(), k);
        assert(forall|j: int|
            0 < j < es.len() ==> (#[trigger] es[j]) == es.drop_first()[j - 1]);
    }
}

/// The entry list with key `k` bound to `v`: the first entry with that key is
/// replaced in place, or a new entry is appended.
pub open spec fn spec_set_entry(
    es: Seq<(Seq<char>, ValueView)>,
    k: Seq<char>,
    v: ValueView,
) -> Seq<(Seq<char>, ValueView)>
    decreases es.len(),
{
    if es.len() == 0 {
        seq![(k, v)]
    } else if es[0].0 == k {
        seq![(k, v)] + es.drop_first()
    } else {
        seq![es[0]] + spec_set_entry(es.drop_first(), k, v)
    }
}

/// Binding a key updates its first entry in place, or appends one.
pub proof fn lemma_set_entry(es: Seq<(Seq<char>, ValueView)>, k: Seq<char>, v: ValueView)
    ensures
        match spec_find_key(es, k) {
            Some(i) => spec_set_entry(es, k, v) == es.update(i, (k, v)),
            None => spec_set_entry(es, k, v) == es.push((k, v)),
        },
    decreases es.len(),
{
    lemma_find_key(es, k);
    if es.len() == 0 {
        assert(spec_set_entry(es, k, v) =~= es.push((k, v)));
    } else if es[0].0 == k {
        assert(spec_set_entry(es, k, v) =~= es.update(0, (k, v)));
    } else {
        lemma_set_entry(es.drop_first(), k, v);
        match spec_find_key(es.drop_first(), k) {
            Some(i) => {
                assert(spec_set_entry(es, k, v) =~= es.update(i + 1, (k, v)));
            },
            None => {
                assert(spec_set_entry(es, k, v) =~= es.push((k, v)));
            },
        }
    }
}

/// A fresh spine of single-entry objects for the remaining path segments,
/// ending in the leaf value.
pub open spec fn spec_chain(parts: Seq<Seq<char>>, v: ValueView) -> ValueView
    decreases parts.len(),
{
    if parts.len() == 0 {
        v
    } else {
        ValueView::Object(seq![(parts[0], spec_chain(parts.drop_first(), v))])
    }
}

/// Binds a dot-path (already split into segments) inside an entry list,
/// descending through or creating nested objects; descending into a non-object
/// is a conflict.
pub open spec fn spec_set_path(
    es: Seq<(Seq<char>, ValueView)>,
    parts: Seq<Seq<char>>,
    v: ValueView,
) -> Result<Seq<(Seq<char>, ValueView)>, ()>
    decreases parts.len(),
{
    if parts.len() == 0 {
        Ok(es)
    } else if parts.len() == 1 {
        Ok(spec_set_entry(es, parts[0], v))
    } else {
        let k = parts[0];
        match spec_find_key(es, k) {
            None => Ok(es.push((k, spec_chain(parts.drop_first(), v)))),
            Some(i) => match es[i].1 {
                ValueView::Object(inner) => match spec_set_path(inner, parts.drop_first(), v) {
                    Ok(inner2) => Ok(es.update(i, (k, ValueView::Object(inner2)))),
                    Err(e) => Err(e),
                },
                _ => Err(()),
            },
        }
    }
}

/// Unflattens a flat row, entry by entry in order, into object entries.
pub open spec fn spec_unflatten(row: Seq<(Seq<char>, ValueView)>) -> Result<
    Seq<(Seq<char>, ValueView)>,
    (),
>
    decreases row.len(),
{
    if row.len() == 0 {
        Ok(Seq::empty())
    } else {
        match spec_unflatten(row.drop_last()) {
            Err(e) => Err(e),
            Ok(acc) => spec_set_path(acc, spec_split_char(row.last().0, '.'), row.last().1),
        }
    }
}

/// Once a prefix of the row conflicts, the whole row conflicts.
pub proof fn lemma_unflatten_err(row: Seq<(Seq<char>, ValueView)>, i: int)
    requires
        0 <= i <= row.len(),
        spec_unflatten(row.take(i)) is Err,
    ensures
        spec_unflatten(row) is Err,
    decreases row.len() - i,
{
    if i < row.len() {
        assert(row.take(i + 1).drop_last() =~= row.take(i));
        assert(spec_unflatten(row.take(i + 1)) is Err);
        lemma_unflatten_err(row, i + 1);
    } else {
        assert(row.take(i) =~= row);
    }
}

/// The position of the first object entry whose key reads as `k`.
pub fn find_key_obj(entries: &Vec<(String, Value)>, k: &[char]) -> (r: Option<usize>)
    ensures
        match r {
            Some(i) => spec_find_key(view_entries(entries@), k@) == Some(i as int),
            None => spec_find_key(view_entries(entries@), k@) is None,
        },
{
    proof {
        lemma_view_entries(entries@);
        lemma_find_key(view_entries(entries@), k@);
    }
    let n = entries.len();
    let mut i: usize = 0;
    while i < n
        invariant
            i <= n,
            n == entries@.len(),
            forall|j: int| 0 <= j < i ==> (#[trigger] view_entries(entries@)[j]).0 != k@,
        decreases n - i,
    {
        proof {
            lemma_view_entries(entries@);
            lemma_find_key(view_entries(entries@), k@);
        }
        let ks = str_to_chars(entries[i].0.as_str());
        if chars_eq(ks.as_slice(), k) {
            assert(view_entries(entries@)[i as int].0 == k@);
            return Some(i);
        }
        i += 1;
    }
    None
}

/// A fresh spine of single-entry objects for the remaining path segments.
pub fn make_chain(parts: &[Vec<char>], v: Value) -> (r: Value)
    ensures
        r@ == spec_chain(views_of(parts@), v@),
    decreases parts@.len(),
{
    if parts.len() == 0 {
        assert(views_of(parts@) =~= Seq::<Seq<char>>::empty());
        v
    } else {
        let key = chars_to_string(parts[0].as_slice());
        let rest = make_chain(&parts[1..parts.len()], v);
        let mut entries: Vec<(String, Value)> = Vec::new();
        entries.push((key, rest));
        let ghost ent = entries@;
        let out = Value::Object(entries);
        proof {
            let pv = views_of(parts@);
            assert(views_of(parts@.subrange(1, parts@.len() as int)) =~= pv.drop_first());
            lemma_view_entries(ent);
            assert(view_entries(ent) =~= seq![(pv[0], spec_chain(pv.drop_first(), v@))]);
        }
        out
    }
}

/// Binds a split dot-path inside owned object entries, as
/// [`spec_set_path`] describes.
pub fn set_path(entries: Vec<(String, Value)>, parts: &[Vec<char>], v: Value) -> (r: Result<
    Vec<(String, Value)>,
    ZoonError,
>)
    ensures
        match r {
            Ok(out) => spec_set_path(view_entries(entries@), views_of(parts@), v@) == Ok::<
                _,
                (),
            >(view_entries(out@)),
            Err(e) => spec_set_path(view_entries(entries@), views_of(parts@), v@) is Err
                && e is ParseError,
        },
    decreases parts@.len(),
{
    let ghost es0 = view_entries(entries@);
    proof {
        lemma_view_entries(entries@);
    }
    if parts.len() == 0 {
        assert(views_of(parts@) =~= Seq::<Seq<char>>::empty());
        return Ok(entries);
    }
    if parts.len() == 1 {
        let mut entries = entries;
        let key = chars_to_string(parts[0].as_slice());
        let found = find_key_obj(&entries, parts[0].as_slice());
        proof {
            lemma_set_entry(es0, views_of(parts@)[0], v@);
            lemma_find_key(es0, views_of(parts@)[0]);
            assert(views_of(parts@)[0] == parts@[0]@);
        }
        match found {
            Some(i) => {
                entries.remove(i);
                entries.insert(i, (key, v));
                proof {
                    lemma_view_entries(entries@);
                    assert(view_entries(entries@) =~= es0.update(
                        i as int,
                        (views_of(parts@)[0], v@),
                    ));
                }
                return Ok(entries);
            },
            None => {
                entries.push((key, v));
                proof {
                    lemma_view_entries(entries@);
                    assert(view_entries(entries@) =~= es0.push((views_of(parts@)[0], v@)));
                }
                return Ok(entries);
            },
        }
    }
    let k = &parts[0];
    let found = find_key_obj(&entries, k.as_slice());
    match found {
        None => {
            let mut entries = entries;
            let key = chars_to_string(k.as_slice());
            let chain = make_chain(&parts[1..parts.len()], v);
            proof {
                assert(views_of(parts@.subrange(1, parts@.len() as int)) =~= views_of(
                    parts@,
                ).drop_first());
            }
            entries.push((key, chain));
            proof {
                lemma_view_entries(entries@);
                assert(view_entries(entries@) =~= es0.push(
                    (views_of(parts@)[0], spec_chain(views_of(parts@).drop_first(), v@)),
                ));
            }
            Ok(entries)
        },
        Some(i) => {
            let mut entries = entries;
            proof {
                lemma_find_key(es0, k@);
                assert(views_of(parts@)[0] == k@);
            }
            let (k0, v0) = entries.remove(i);
            proof {
                lemma_view_entries(entries@);
                assert(es0[i as int] == (k0@, v0@));
            }
            match v0 {
                Value::Object(inner) => {
                    let ghost innerv = view_entries(inner@);
                    let ghost vv = v@;
                    proof {
                        assert(es0[i as int].1 == ValueView::Object(innerv));
                        assert(views_of(parts@.subrange(1, parts@.len() as int)) =~= views_of(
                            parts@,
                        ).drop_first());
                    }
                    match set_path(inner, &parts[1..parts.len()], v) {
                        Ok(inner2) => {
                            let ghost inner2v = view_entries(inner2@);
                            proof {
                                assert(spec_set_path(innerv, views_of(parts@).drop_first(), vv)
                                    == Ok::<_, ()>(inner2v));
                            }
                            entries.insert(i, (k0, Value::Object(inner2)));
                            proof {
                                lemma_view_entries(entries@);
                                assert(views_of(parts@)[0] == k0@);
                                assert(view_entries(entries@) =~= es0.update(
                                    i as int,
                                    (views_of(parts@)[0], ValueView::Object(inner2v)),
                                ));
                                assert(spec_set_path(es0, views_of(parts@), vv) == Ok::<_, ()>(
                                    view_entries(entries@),
                                ));
                            }
                            Ok(entries)
                        },
                        Err(e) => {
                            proof {
                                assert(spec_set_path(innerv, views_of(parts@).drop_first(), vv)
                                    is Err);
                                assert(spec_set_path(es0, views_of(parts@), vv) is Err);
                            }
                            Err(e)
                        },
                    }
                },
                _ => {
                    let mut msg = String::from_str("conflict at key ");
                    let ks = chars_to_string(k.as_slice());
                    msg.append(ks.as_str());
                    Err(ZoonError::ParseError(msg))
                },
            }
        },
    }
}

/// Unflattens a flat row into a nested object, failing on a path used both
/// as a leaf and as a prefix.
#[verifier::loop_isolation(false)]
pub fn unflatten(row: Vec<(Vec<char>, Value)>) -> (r: Result<Value, ZoonError>)
    ensures
        match r {
            Ok(out) => spec_unflatten(row_view(row@)) matches Ok(es) && out@ == ValueView::Object(
                es,
            ),
            Err(e) => spec_unflatten(row_view(row@)) is Err && e is ParseError,
        },
{
    let ghost rv = row_view(row@);
    proof {
        lemma_row_view(row@);
    }
    let mut row = row;
    let mut obj: Vec<(String, Value)> = Vec::new();
    let n = row.len();
    let mut i: usize = 0;
    assert(view_entries(obj@) =~= Seq::<(Seq<char>, ValueView)>::empty());
    assert(rv.take(0) =~= Seq::<(Seq<char>, ValueView)>::empty());
    while i < n
        invariant
            i <= n,
            n == rv.len(),
            row@.len() == n - i,
            forall|j: int| 0 <= j < n - i ==> (#[trigger] row@[j].0@, row@[j].1@) == rv[i + j],
            spec_unflatten(rv.take(i as int)) == Ok::<Seq<(Seq<char>, ValueView)>, ()>(
                view_entries(obj@),
            ),
        decreases n - i,
    {
        let (k, v) = row.remove(0);
        let ghost kv = k@;
        let ghost vv = v@;
        assert((kv, vv) == rv[i as int]);
        let parts = split_char(k.as_slice(), '.');
        proof {
            assert(rv.take(i + 1 as int).drop_last() =~= rv.take(i as int));
            assert(rv.take(i + 1 as int).last() == rv[i as int]);
        }
        let ghost objv0 = view_entries(obj@);
        match set_path(obj, parts.as_slice(), v) {
            Ok(o) => {
                obj = o;
                assert(spec_unflatten(rv.take(i + 1 as int)) == Ok::<
                    Seq<(Seq<char>, ValueView)>,
                    (),
                >(view_entries(obj@)));
            },
            Err(e) => {
                proof {
                    assert(spec_unflatten(rv.take(i + 1 as int)) is Err);
                    lemma_unflatten_err(rv, i + 1 as int);
                }
                return Err(e);
            },
        }
        i += 1;
    }
    assert(rv.take(n as int) =~= rv);
    Ok(Value::Object(obj))
}

} // verus!
