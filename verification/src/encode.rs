//! The encoder: flattening, alias detection, constant extraction, column
//! type inference, and the two renderers.
use vstd::prelude::*;

use crate::text::chars_eq;
use crate::text::chars_eq_str;
use crate::text::chars_to_string;
use crate::text::i64_chars;
use crate::text::lex_le;
use crate::text::replace_char;
use crate::text::spec_i64_chars;
use crate::text::spec_parse_i64;
use crate::text::spec_lex_le;
use crate::text::spec_replace;
use crate::text::spec_split_char;
use crate::text::split_char;
use crate::text::str_to_chars;
use crate::text::u64_chars;
use crate::text::spec_u64_chars;
use crate::text::views_of;
use crate::value::Value;
use crate::value::ValueView;
use crate::value::view_entries;
use crate::value::view_items;
use crate::value::lemma_view_entries;
use crate::value::lemma_view_items;
use crate::ZoonError;

verus! {

broadcast use vstd::std_specs::vec::group_vec_axioms, vstd::seq::group_seq_axioms;

impl Value {
    /// A structural copy: the same tree, entry by entry.
    #[verifier::loop_isolation(false)]
    pub fn duplicate(&self) -> (r: Value)
        ensures
            r@ == self@,
        decreases self,
    {
        match self {
            Value::Null => Value::Null,
            Value::Bool(b) => Value::Bool(*b),
            Value::Int(n) => Value::Int(*n),
            Value::Num(s) => Value::Num(s.clone()),
            Value::Str(s) => Value::Str(s.clone()),
            Value::Object(es) => {
                let n = es.len();
                let mut out: Vec<(String, Value)> = Vec::new();
                let mut i: usize = 0;
                proof {
                    lemma_view_entries(es@);
                    lemma_view_entries(out@);
                }
                while i < n
                    invariant
                        i <= n,
                        n == es@.len(),
                        out@.len() == i,
                        view_entries(out@) == view_entries(es@).take(i as int),
                    decreases n - i,
                {
                    let k = es[i].0.clone();
                    let v = es[i].1.duplicate();
                    let ghost pre = view_entries(out@);
                    proof {
                        lemma_view_entries(out@);
                        lemma_view_entries(es@);
                    }
                    out.push((k, v));
                    proof {
                        lemma_view_entries(out@);
                        assert(view_entries(out@) =~= view_entries(es@).take(i + 1 as int));
                    }
                    i += 1;
                }
                proof {
                    lemma_view_entries(es@);
                    assert(view_entries(es@).take(n as int) =~= view_entries(es@));
                }
                Value::Object(out)
            },
            Value::Array(xs) => {
                let n = xs.len();
                let mut out: Vec<Value> = Vec::new();
                let mut i: usize = 0;
                proof {
                    lemma_view_items(xs@);
                    lemma_view_items(out@);
                }
                while i < n
                    invariant
                        i <= n,
                        n == xs@.len(),
                        out@.len() == i,
                        view_items(out@) == view_items(xs@).take(i as int),
                    decreases n - i,
                {
                    let v = xs[i].duplicate();
                    proof {
                        lemma_view_items(out@);
                        lemma_view_items(xs@);
                    }
                    out.push(v);
                    proof {
                        lemma_view_items(out@);
                        assert(view_items(out@) =~= view_items(xs@).take(i + 1 as int));
                    }
                    i += 1;
                }
                proof {
                    lemma_view_items(xs@);
                    assert(view_items(xs@).take(n as int) =~= view_items(xs@));
                }
                Value::Array(out)
            },
        }
    }
}

/// One rendered `key<sep>value` token of the inline grammar: strings take
/// `=` with spaces escaped to underscores, booleans `:y`/`:n`, everything
/// else `:` with the generic scalar serialization.
pub open spec fn spec_pair(k: Seq<char>, v: ValueView) -> Seq<char>
    decreases v, 1int,
{
    match v {
        ValueView::Str(_) => k + seq!['='] + spec_serialize(v),
        ValueView::Bool(b) => if b {
            k + seq![':'] + "y"@
        } else {
            k + seq![':'] + "n"@
        },
        _ => k + seq![':'] + spec_serialize(v),
    }
}

/// An inline block: the entries' tokens joined by single spaces.
pub open spec fn spec_inline_render(es: Seq<(Seq<char>, ValueView)>) -> Seq<char>
    decreases es, 2int,
{
    if es.len() == 0 {
        Seq::empty()
    } else if es.len() == 1 {
        spec_pair(es[0].0, es[0].1)
    } else {
        spec_pair(es[0].0, es[0].1) + seq![' '] + spec_inline_render(es.drop_first())
    }
}

/// The generic scalar serialization: strings with spaces escaped, numbers as
/// decimal text, booleans as `1`/`0`, null as the marker, nested objects as
/// a braced inline block, arrays as the opaque placeholder.
pub open spec fn spec_serialize(v: ValueView) -> Seq<char>
    decreases v, 0int,
{
    match v {
        ValueView::Str(s) => spec_replace(s, ' ', '_'),
        ValueView::Int(n) => spec_i64_chars(n),
        ValueView::Num(s) => s,
        ValueView::Bool(b) => if b {
            "1"@
        } else {
            "0"@
        },
        ValueView::Null => "~"@,
        ValueView::Object(es) => seq!['{'] + spec_inline_render(es) + seq!['}'],
        ValueView::Array(_) => "[...]"@,
    }
}

/// Extending an entry list extends its rendering on the right.
pub proof fn lemma_render_push(es: Seq<(Seq<char>, ValueView)>, e: (Seq<char>, ValueView))
    ensures
        spec_inline_render(es.push(e)) == if es.len() == 0 {
            spec_pair(e.0, e.1)
        } else {
            spec_inline_render(es) + seq![' '] + spec_pair(e.0, e.1)
        },
    decreases es.len(),
{
    if es.len() == 0 {
        assert(es.push(e)[0] == e);
        assert(es.push(e).len() == 1);
    } else {
        assert(es.push(e).drop_first() =~= es.drop_first().push(e));
        lemma_render_push(es.drop_first(), e);
        assert(es.push(e)[0] == es[0]);
        if es.len() == 1 {
            assert(es.drop_first().len() == 0);
            assert(spec_inline_render(es.push(e)) =~= spec_inline_render(es) + seq![' ']
                + spec_pair(e.0, e.1));
        } else {
            assert(spec_inline_render(es.push(e)) =~= spec_inline_render(es) + seq![' ']
                + spec_pair(e.0, e.1));
        }
    }
}

/// Renders one value with the generic scalar serialization, as
/// [`spec_serialize`] describes.
#[verifier::loop_isolation(false)]
pub fn serialize_chars(v: &Value) -> (r: Vec<char>)
    ensures
        r@ == spec_serialize(v@),
    decreases v, 0int,
{
    match v {
        Value::Str(s) => {
            let cs = str_to_chars(s.as_str());
            replace_char(cs.as_slice(), ' ', '_')
        },
        Value::Int(n) => i64_chars(*n),
        Value::Num(s) => str_to_chars(s.as_str()),
        Value::Bool(b) => {
            let lit: &str = if *b {
                "1"
            } else {
                "0"
            };
            str_to_chars(lit)
        },
        Value::Null => str_to_chars("~"),
        Value::Array(_) => str_to_chars("[...]"),
        Value::Object(es) => {
            let inner = render_entries(es);
            let mut out: Vec<char> = Vec::new();
            out.push('{');
            let ghost out0 = out@;
            let mut p: usize = 0;
            while p < inner.len()
                invariant
                    p <= inner@.len(),
                    out@ == out0 + inner@.subrange(0, p as int),
                decreases inner@.len() - p,
            {
                out.push(inner[p]);
                assert(out@ =~= out0 + inner@.subrange(0, p + 1 as int));
                p += 1;
            }
            proof {
                assert(inner@.subrange(0, inner@.len() as int) =~= inner@);
            }
            out.push('}');
            proof {
                assert(out@ =~= seq!['{'] + inner@ + seq!['}']);
            }
            out
        },
    }
}

/// Renders an entry list as the inline block's space-joined tokens, as
/// [`spec_inline_render`] describes.
#[verifier::loop_isolation(false)]
pub fn render_entries(es: &Vec<(String, Value)>) -> (r: Vec<char>)
    ensures
        r@ == spec_inline_render(view_entries(es@)),
    decreases es@, 2int,
{
    let ghost ev = view_entries(es@);
    proof {
        lemma_view_entries(es@);
        assert(ev.take(0) =~= Seq::<(Seq<char>, ValueView)>::empty());
    }
    let mut out: Vec<char> = Vec::new();
    let n = es.len();
    let mut i: usize = 0;
    assert(out@ =~= spec_inline_render(ev.take(0)));
    while i < n
        invariant
            i <= n,
            n == es@.len(),
            ev == view_entries(es@),
            out@ == spec_inline_render(ev.take(i as int)),
        decreases n - i,
    {
        proof {
            lemma_view_entries(es@);
            assert(ev.take(i + 1 as int) =~= ev.take(i as int).push(ev[i as int]));
            lemma_render_push(ev.take(i as int), ev[i as int]);
        }
        if i > 0 {
            out.push(' ');
        }
        let kc = str_to_chars(es[i].0.as_str());
        let mut j: usize = 0;
        let ghost out0 = out@;
        while j < kc.len()
            invariant
                j <= kc@.len(),
                out@ == out0 + kc@.subrange(0, j as int),
            decreases kc@.len() - j,
        {
            out.push(kc[j]);
            assert(out@ =~= out0 + kc@.subrange(0, j + 1 as int));
            j += 1;
        }
        proof {
            assert(kc@.subrange(0, kc@.len() as int) =~= kc@);
        }
        match &es[i].1 {
            Value::Str(_) => {
                out.push('=');
            },
            _ => {
                out.push(':');
            },
        }
        let payload: Vec<char> = match &es[i].1 {
            Value::Bool(b) => {
                let lit: &str = if *b {
                    "y"
                } else {
                    "n"
                };
                str_to_chars(lit)
            },
            _ => serialize_chars(&es[i].1),
        };
        let mut p: usize = 0;
        let ghost out1 = out@;
        while p < payload.len()
            invariant
                p <= payload@.len(),
                out@ == out1 + payload@.subrange(0, p as int),
            decreases payload@.len() - p,
        {
            out.push(payload[p]);
            assert(out@ =~= out1 + payload@.subrange(0, p + 1 as int));
            p += 1;
        }
        proof {
            assert(payload@.subrange(0, payload@.len() as int) =~= payload@);
            assert(out@ =~= spec_inline_render(ev.take(i + 1 as int)));
        }
        i += 1;
    }
    proof {
        assert(ev.take(n as int) =~= ev);
    }
    out
}

/// The generic scalar serialization of one value.
pub fn serialize_value(value: &Value) -> (r: String)
    ensures
        r@ == spec_serialize(value@),
{
    let cs = serialize_chars(value);
    chars_to_string(cs.as_slice())
}

/// One rendered `key<sep>value` token of the inline grammar.
pub fn format_inline_pair(key: &str, value: &Value) -> (r: String)
    ensures
        r@ == spec_pair(key@, value@),
{
    let mut out = str_to_chars(key);
    let ghost k0 = out@;
    match value {
        Value::Str(_) => {
            out.push('=');
        },
        _ => {
            out.push(':');
        },
    }
    let payload: Vec<char> = match value {
        Value::Bool(b) => {
            let lit: &str = if *b {
                "y"
            } else {
                "n"
            };
            str_to_chars(lit)
        },
        _ => serialize_chars(value),
    };
    let mut p: usize = 0;
    let ghost out1 = out@;
    while p < payload.len()
        invariant
            p <= payload@.len(),
            out@ == out1 + payload@.subrange(0, p as int),
        decreases payload@.len() - p,
    {
        out.push(payload[p]);
        assert(out@ =~= out1 + payload@.subrange(0, p + 1 as int));
        p += 1;
    }
    proof {
        assert(payload@.subrange(0, payload@.len() as int) =~= payload@);
        assert(out@ =~= spec_pair(key@, value@));
    }
    chars_to_string(out.as_slice())
}

/// Renders a whole object as one inline block.
pub fn encode_inline(obj: &Vec<(String, Value)>) -> (r: Result<String, ZoonError>)
    ensures
        r matches Ok(s) && s@ == spec_inline_render(view_entries(obj@)),
{
    let cs = render_entries(obj);
    Ok(chars_to_string(cs.as_slice()))
}


/// Appends a character run to a buffer.
pub fn append_chars(out: &mut Vec<char>, s: &[char])
    ensures
        final(out)@ == old(out)@ + s@,
{
    let n = s.len();
    let mut i: usize = 0;
    let ghost o0 = out@;
    proof {
        assert(out@ =~= o0 + s@.subrange(0, 0));
    }
    while i < n
        invariant
            i <= n,
            n == s@.len(),
            out@ == o0 + s@.subrange(0, i as int),
        decreases n - i,
    {
        out.push(s[i]);
        assert(out@ =~= o0 + s@.subrange(0, i + 1 as int));
        i += 1;
    }
    assert(s@.subrange(0, n as int) =~= s@);
}

/// Pieces joined by a single separator character.
pub open spec fn spec_join(pieces: Seq<Seq<char>>, sep: char) -> Seq<char>
    decreases pieces.len(),
{
    if pieces.len() == 0 {
        Seq::empty()
    } else if pieces.len() == 1 {
        pieces[0]
    } else {
        pieces[0] + seq![sep] + spec_join(pieces.drop_first(), sep)
    }
}

/// Extending a piece list extends the joined text on the right.
pub proof fn lemma_join_push(s: Seq<Seq<char>>, x: Seq<char>, sep: char)
    ensures
        spec_join(s.push(x), sep) == if s.len() == 0 {
            x
        } else {
            spec_join(s, sep) + seq![sep] + x
        },
    decreases s.len(),
{
    if s.len() == 0 {
        assert(s.push(x)[0] == x);
    } else {
        assert(s.push(x).drop_first() =~= s.drop_first().push(x));
        lemma_join_push(s.drop_first(), x, sep);
        assert(s.push(x)[0] == s[0]);
        if s.len() == 1 {
            assert(spec_join(s.push(x), sep) =~= spec_join(s, sep) + seq![sep] + x);
        } else {
            assert(spec_join(s.push(x), sep) =~= spec_join(s, sep) + seq![sep] + x);
        }
    }
}

/// Joins pieces with a separator, as [`spec_join`] describes.
#[verifier::loop_isolation(false)]
pub fn join_chars(pieces: &Vec<Vec<char>>, sep: char) -> (r: Vec<char>)
    ensures
        r@ == spec_join(views_of(pieces@), sep),
{
    let ghost pv = views_of(pieces@);
    let mut out: Vec<char> = Vec::new();
    let n = pieces.len();
    let mut i: usize = 0;
    proof {
        assert(pv.take(0) =~= Seq::<Seq<char>>::empty());
        assert(out@ =~= spec_join(pv.take(0), sep));
    }
    while i < n
        invariant
            i <= n,
            out@ == spec_join(pv.take(i as int), sep),
        decreases n - i,
    {
        proof {
            assert(pv.take(i + 1 as int) =~= pv.take(i as int).push(pv[i as int]));
            lemma_join_push(pv.take(i as int), pv[i as int], sep);
        }
        if i > 0 {
            out.push(sep);
        }
        append_chars(&mut out, pieces[i].as_slice());
        proof {
            assert(out@ =~= spec_join(pv.take(i + 1 as int), sep));
        }
        i += 1;
    }
    proof {
        assert(pv.take(n as int) =~= pv);
    }
    out
}

/// A child's dot-path under a prefix.
pub open spec fn spec_child_key(prefix: Seq<char>, k: Seq<char>) -> Seq<char> {
    if prefix.len() == 0 {
        k
    } else {
        prefix + seq!['.'] + k
    }
}

/// The flat map extended by one value: objects recurse with dot-joined
/// paths, anything else is recorded at the current path.
pub open spec fn spec_flatten_into(
    acc: Seq<(Seq<char>, ValueView)>,
    prefix: Seq<char>,
    v: ValueView,
) -> Seq<(Seq<char>, ValueView)>
    decreases v, 0int,
{
    match v {
        ValueView::Object(es) => spec_flatten_entries(acc, prefix, es),
        _ => crate::paths::spec_set_entry(acc, prefix, v),
    }
}

/// The flat map extended by an object's entries, in order.
pub open spec fn spec_flatten_entries(
    acc: Seq<(Seq<char>, ValueView)>,
    prefix: Seq<char>,
    es: Seq<(Seq<char>, ValueView)>,
) -> Seq<(Seq<char>, ValueView)>
    decreases es, 1int,
{
    if es.len() == 0 {
        acc
    } else {
        spec_flatten_entries(
            spec_flatten_into(acc, spec_child_key(prefix, es[0].0), es[0].1),
            prefix,
            es.drop_first(),
        )
    }
}

/// Flattens one value into a flat row, as [`spec_flatten_into`] describes.
#[verifier::loop_isolation(false)]
pub fn flatten_into(row: &mut Vec<(Vec<char>, Value)>, prefix: Vec<char>, v: &Value)
    ensures
        crate::paths::row_view(final(row)@) == spec_flatten_into(
            crate::paths::row_view(old(row)@),
            prefix@,
            v@,
        ),
    decreases v, 0int,
{
    match v {
        Value::Object(es) => {
            let ghost ev = view_entries(es@);
            let ghost rv0 = crate::paths::row_view(row@);
            proof {
                lemma_view_entries(es@);
                assert(ev.skip(0) =~= ev);
            }
            let n = es.len();
            let mut i: usize = 0;
            while i < n
                invariant
                    i <= n,
                    spec_flatten_entries(rv0, prefix@, ev) == spec_flatten_entries(
                        crate::paths::row_view(row@),
                        prefix@,
                        ev.skip(i as int),
                    ),
                decreases n - i,
            {
                proof {
                    assert(ev.skip(i as int)[0] == ev[i as int]);
                    assert(ev.skip(i as int).drop_first() =~= ev.skip(i + 1 as int));
                }
                let child: Vec<char> = if prefix.len() == 0 {
                    str_to_chars(es[i].0.as_str())
                } else {
                    let mut c = vstd::slice::slice_to_vec(prefix.as_slice());
                    c.push('.');
                    let kc = str_to_chars(es[i].0.as_str());
                    append_chars(&mut c, kc.as_slice());
                    proof {
                        assert(c@ =~= prefix@ + seq!['.'] + ev[i as int].0);
                    }
                    c
                };
                flatten_into(row, child, &es[i].1);
                i += 1;
            }
            proof {
                assert(ev.skip(n as int) =~= Seq::<(Seq<char>, ValueView)>::empty());
            }
        },
        _ => {
            crate::decode::insert_flat(row, prefix, v.duplicate());
        },
    }
}

/// The view of a list of flat rows.
pub open spec fn rows_view(rs: Seq<Vec<(Vec<char>, Value)>>) -> Seq<Seq<(Seq<char>, ValueView)>> {
    Seq::new(rs.len(), |i: int| crate::paths::row_view(rs[i]@))
}

/// A key list extended by one key, keeping the first occurrence only.
pub open spec fn spec_add_key(keys: Seq<Seq<char>>, k: Seq<char>) -> Seq<Seq<char>> {
    if keys.contains(k) {
        keys
    } else {
        keys.push(k)
    }
}

/// The keys of one flat row added in order.
pub open spec fn spec_row_keys(keys: Seq<Seq<char>>, row: Seq<(Seq<char>, ValueView)>) -> Seq<
    Seq<char>,
>
    decreases row.len(),
{
    if row.len() == 0 {
        keys
    } else {
        spec_add_key(spec_row_keys(keys, row.drop_last()), row.last().0)
    }
}

/// The distinct keys of all rows, in first-seen order.
pub open spec fn spec_all_keys(rows: Seq<Seq<(Seq<char>, ValueView)>>) -> Seq<Seq<char>>
    decreases rows.len(),
{
    if rows.len() == 0 {
        Seq::empty()
    } else {
        spec_row_keys(spec_all_keys(rows.drop_last()), rows.last())
    }
}

/// Whether a key list already holds `k`.
pub fn contains_key(keys: &Vec<Vec<char>>, k: &[char]) -> (r: bool)
    ensures
        r == views_of(keys@).contains(k@),
{
    let n = keys.len();
    let mut i: usize = 0;
    while i < n
        invariant
            i <= n,
            n == keys@.len(),
            forall|j: int| 0 <= j < i ==> views_of(keys@)[j] != k@,
        decreases n - i,
    {
        if chars_eq(keys[i].as_slice(), k) {
            assert(views_of(keys@)[i as int] == k@);
            return true;
        }
        i += 1;
    }
    proof {
        if views_of(keys@).contains(k@) {
            let j = choose|j: int| 0 <= j < views_of(keys@).len() && views_of(keys@)[j] == k@;
            assert(views_of(keys@)[j] != k@);
        }
    }
    false
}

/// Adds one row's keys, as [`spec_row_keys`] describes.
#[verifier::loop_isolation(false)]
pub fn add_row_keys(keys: &mut Vec<Vec<char>>, row: &Vec<(Vec<char>, Value)>)
    ensures
        views_of(final(keys)@) == spec_row_keys(views_of(old(keys)@), crate::paths::row_view(row@)),
{
    let ghost rv = crate::paths::row_view(row@);
    proof {
        crate::paths::lemma_row_view(row@);
        assert(rv.take(0) =~= Seq::<(Seq<char>, ValueView)>::empty());
    }
    let n = row.len();
    let mut i: usize = 0;
    while i < n
        invariant
            i <= n,
            views_of(keys@) == spec_row_keys(views_of(old(keys)@), rv.take(i as int)),
        decreases n - i,
    {
        proof {
            assert(rv.take(i + 1 as int).drop_last() =~= rv.take(i as int));
            assert(rv.take(i + 1 as int).last() == rv[i as int]);
        }
        let ghost pre = views_of(keys@);
        if !contains_key(keys, row[i].0.as_slice()) {
            let kc = vstd::slice::slice_to_vec(row[i].0.as_slice());
            keys.push(kc);
            proof {
                assert(views_of(keys@) =~= pre.push(rv[i as int].0));
            }
        }
        i += 1;
    }
    proof {
        assert(rv.take(n as int) =~= rv);
    }
}

/// A key inserted into a sorted key list, keeping the order.
pub open spec fn spec_insert_sorted(sorted: Seq<Seq<char>>, x: Seq<char>) -> Seq<Seq<char>>
    decreases sorted.len(),
{
    if sorted.len() == 0 {
        seq![x]
    } else if spec_lex_le(x, sorted[0]) {
        seq![x] + sorted
    } else {
        seq![sorted[0]] + spec_insert_sorted(sorted.drop_first(), x)
    }
}

/// Insertion sort of a key list, lexicographically ascending.
pub open spec fn spec_sort_keys(s: Seq<Seq<char>>) -> Seq<Seq<char>>
    decreases s.len(),
{
    if s.len() == 0 {
        s
    } else {
        spec_insert_sorted(spec_sort_keys(s.drop_last()), s.last())
    }
}

/// Inserts into a sorted key list, as [`spec_insert_sorted`] describes.
pub fn insert_sorted(sorted: Vec<Vec<char>>, x: Vec<char>) -> (r: Vec<Vec<char>>)
    ensures
        views_of(r@) == spec_insert_sorted(views_of(sorted@), x@),
    decreases sorted@.len(),
{
    let ghost sv = views_of(sorted@);
    if sorted.len() == 0 {
        let mut r: Vec<Vec<char>> = Vec::new();
        r.push(x);
        proof {
            assert(views_of(r@) =~= seq![x@]);
        }
        r
    } else if lex_le(x.as_slice(), sorted[0].as_slice()) {
        let mut r = sorted;
        let ghost r0 = r@;
        r.insert(0, x);
        proof {
            assert(views_of(r@) =~= seq![x@] + views_of(r0));
        }
        r
    } else {
        let mut s = sorted;
        let h = s.remove(0);
        proof {
            assert(views_of(s@) =~= sv.drop_first());
        }
        let mut t = insert_sorted(s, x);
        let ghost t0 = t@;
        t.insert(0, h);
        proof {
            assert(views_of(t@) =~= seq![sv[0]] + views_of(t0));
        }
        t
    }
}

/// Sorts a key list, as [`spec_sort_keys`] describes.
pub fn sort_keys(v: Vec<Vec<char>>) -> (r: Vec<Vec<char>>)
    ensures
        views_of(r@) == spec_sort_keys(views_of(v@)),
    decreases v@.len(),
{
    let ghost vv = views_of(v@);
    if v.len() == 0 {
        assert(views_of(v@) =~= Seq::<Seq<char>>::empty());
        v
    } else {
        let mut v = v;
        let last = match v.pop() {
            Some(x) => x,
            None => {
                proof {
                    assert(false);
                }
                Vec::new()
            },
        };
        proof {
            assert(views_of(v@) =~= vv.drop_last());
            assert(last@ == vv.last());
        }
        let sorted = sort_keys(v);
        insert_sorted(sorted, last)
    }
}

/// The value of a flat row at a key; a missing key reads as null.
pub open spec fn spec_lookup_row(row: Seq<(Seq<char>, ValueView)>, k: Seq<char>) -> ValueView {
    match crate::paths::spec_find_key(row, k) {
        Some(i) => row[i].1,
        None => ValueView::Null,
    }
}

/// The serialized cell of a flat row at a key.
pub open spec fn spec_cell(row: Seq<(Seq<char>, ValueView)>, k: Seq<char>) -> Seq<char> {
    spec_serialize(spec_lookup_row(row, k))
}

/// Reads a flat row at a key, as [`spec_lookup_row`] describes.
pub fn lookup_row(row: &Vec<(Vec<char>, Value)>, k: &[char]) -> (r: Value)
    ensures
        r@ == spec_lookup_row(crate::paths::row_view(row@), k@),
{
    proof {
        crate::paths::lemma_row_view(row@);
        crate::paths::lemma_find_key(crate::paths::row_view(row@), k@);
    }
    match crate::decode::find_key_row(row, k) {
        Some(i) => row[i].1.duplicate(),
        None => Value::Null,
    }
}

/// A column is constant when its serialized cell is identical in every row
/// and the first row's value is not null.
pub open spec fn spec_is_const(rows: Seq<Seq<(Seq<char>, ValueView)>>, k: Seq<char>) -> bool {
    &&& forall|i: int| 0 <= i < rows.len() ==> spec_cell(#[trigger] rows[i], k) == spec_cell(
        rows[0],
        k,
    )
    &&& rows.len() > 0
    &&& !(spec_lookup_row(rows[0], k) is Null)
}

/// Decides constancy of one column, as [`spec_is_const`] describes.
#[verifier::loop_isolation(false)]
pub fn is_const(rows: &Vec<Vec<(Vec<char>, Value)>>, k: &[char]) -> (r: bool)
    ensures
        r == spec_is_const(rows_view(rows@), k@),
{
    let ghost rsv = rows_view(rows@);
    if rows.len() == 0 {
        return false;
    }
    let first = lookup_row(&rows[0], k);
    match first {
        Value::Null => {
            return false;
        },
        _ => {},
    }
    let c0 = serialize_chars(&first);
    let n = rows.len();
    let mut i: usize = 1;
    while i < n
        invariant
            1 <= i <= n,
            forall|j: int| 0 <= j < i ==> spec_cell(#[trigger] rsv[j], k@) == spec_cell(rsv[0], k@),
        decreases n - i,
    {
        let vi = lookup_row(&rows[i], k);
        let ci = serialize_chars(&vi);
        if !chars_eq(ci.as_slice(), c0.as_slice()) {
            assert(spec_cell(rsv[i as int], k@) != spec_cell(rsv[0], k@));
            return false;
        }
        i += 1;
    }
    true
}

/// The sorted keys split into hoisted constants (with their shared value)
/// and active column keys, in order.
pub open spec fn spec_split_keys(
    rows: Seq<Seq<(Seq<char>, ValueView)>>,
    keys: Seq<Seq<char>>,
) -> (Seq<(Seq<char>, ValueView)>, Seq<Seq<char>>)
    decreases keys.len(),
{
    if keys.len() == 0 {
        (Seq::empty(), Seq::empty())
    } else {
        let rec = spec_split_keys(rows, keys.drop_last());
        let k = keys.last();
        if spec_is_const(rows, k) {
            (rec.0.push((k, spec_lookup_row(rows[0], k))), rec.1)
        } else {
            (rec.0, rec.1.push(k))
        }
    }
}


/// The non-trivial dot-path prefixes of a key: every proper, non-empty
/// initial run of its segments, dot-joined.
pub open spec fn spec_prefixes_of(key: Seq<char>) -> Seq<Seq<char>> {
    let parts = spec_split_char(key, '.');
    if parts.len() <= 1 {
        Seq::empty()
    } else {
        Seq::new((parts.len() - 1) as nat, |i: int| spec_join(parts.take(i + 1), '.'))
    }
}

/// A prefix-count table with one more occurrence of `p`; the count
/// saturates far beyond any input that fits in memory, so the score
/// arithmetic stays within a machine word.
pub open spec fn spec_bump(cnt: Seq<(Seq<char>, int)>, p: Seq<char>) -> Seq<(Seq<char>, int)>
    decreases cnt.len(),
{
    if cnt.len() == 0 {
        seq![(p, 1int)]
    } else if cnt[0].0 == p {
        seq![
            (
                cnt[0].0,
                if cnt[0].1 < 4611686018427387904 {
                    cnt[0].1 + 1
                } else {
                    cnt[0].1
                },
            ),
        ] + cnt.drop_first()
    } else {
        seq![cnt[0]] + spec_bump(cnt.drop_first(), p)
    }
}

/// The count table after one key's prefixes, in order.
pub open spec fn spec_bump_all(cnt: Seq<(Seq<char>, int)>, ps: Seq<Seq<char>>) -> Seq<
    (Seq<char>, int),
>
    decreases ps.len(),
{
    if ps.len() == 0 {
        cnt
    } else {
        spec_bump(spec_bump_all(cnt, ps.drop_last()), ps.last())
    }
}

/// The prefix-count table of a key list: for each key, every non-trivial
/// prefix counted once.
pub open spec fn spec_count_prefixes(keys: Seq<Seq<char>>) -> Seq<(Seq<char>, int)>
    decreases keys.len(),
{
    if keys.len() == 0 {
        Seq::empty()
    } else {
        spec_bump_all(spec_count_prefixes(keys.drop_last()), spec_prefixes_of(keys.last()))
    }
}

/// The alias score of a prefix of length `plen` shared by `count` keys:
/// bytes saved by shortening against the cost of declaring the alias.
/// Both measures are clamped so the arithmetic stays within a machine word;
/// the clamp is unreachable for any input that fits in memory.
pub open spec fn spec_score(plen: int, count: int) -> int {
    let l = if plen > 2147483647 {
        2147483647int
    } else {
        plen
    };
    let c = if count > 2147483647 {
        2147483647int
    } else {
        count
    };
    (l - 2) * c - (l + 4)
}

/// The candidates with a positive score, in table order.
pub open spec fn spec_scored(cnt: Seq<(Seq<char>, int)>) -> Seq<(Seq<char>, int)>
    decreases cnt.len(),
{
    if cnt.len() == 0 {
        Seq::empty()
    } else {
        let rec = spec_scored(cnt.drop_last());
        let sc = spec_score(cnt.last().0.len() as int, cnt.last().1);
        if sc > 0 {
            rec.push((cnt.last().0, sc))
        } else {
            rec
        }
    }
}

/// Candidate order: higher score first, ties by prefix text.
pub open spec fn spec_cand_le(a: (Seq<char>, int), b: (Seq<char>, int)) -> bool {
    a.1 > b.1 || (a.1 == b.1 && spec_lex_le(a.0, b.0))
}

/// A candidate inserted into a sorted candidate list.
pub open spec fn spec_insert_cand(sorted: Seq<(Seq<char>, int)>, x: (Seq<char>, int)) -> Seq<
    (Seq<char>, int),
>
    decreases sorted.len(),
{
    if sorted.len() == 0 {
        seq![x]
    } else if spec_cand_le(x, sorted[0]) {
        seq![x] + sorted
    } else {
        seq![sorted[0]] + spec_insert_cand(sorted.drop_first(), x)
    }
}

/// Insertion sort of the candidates, best first.
pub open spec fn spec_sort_cands(s: Seq<(Seq<char>, int)>) -> Seq<(Seq<char>, int)>
    decreases s.len(),
{
    if s.len() == 0 {
        s
    } else {
        spec_insert_cand(spec_sort_cands(s.drop_last()), s.last())
    }
}

/// ASCII lowercasing of one character.
pub open spec fn spec_lower(c: char) -> char {
    if 65 <= c as u32 <= 90 {
        ((c as u32 + 32) as u8) as char
    } else {
        c
    }
}

/// The last dot-segment of a prefix.
pub open spec fn spec_last_seg(p: Seq<char>) -> Seq<char> {
    spec_split_char(p, '.').last()
}

/// The `i`-th lower-case letter.
pub open spec fn spec_letter(i: int) -> char {
    ((97 + i) as u8) as char
}

/// The fallback walk through `a`..`z` for a colliding alias token.
pub open spec fn spec_fallback(used: Seq<char>, cand: char, idx: int) -> (char, int)
    decreases 26 - idx,
{
    if !used.contains(cand) {
        (cand, idx)
    } else if idx > 25 {
        (cand, idx)
    } else {
        spec_fallback(used, spec_letter(idx), idx + 1)
    }
}

/// One assignment step: the candidate's token is the lower-cased first
/// letter of its last segment, falling back through unused letters; at ten
/// aliases, or with no token left, the prefix keeps its full path.
pub open spec fn spec_assign_step(
    st: (Seq<(Seq<char>, char)>, Seq<char>, int),
    p: Seq<char>,
) -> (Seq<(Seq<char>, char)>, Seq<char>, int) {
    if st.0.len() >= 10 {
        st
    } else {
        let seg = spec_last_seg(p);
        if seg.len() == 0 {
            st
        } else {
            let f = spec_fallback(st.1, spec_lower(seg[0]), st.2);
            if !st.1.contains(f.0) {
                (st.0.push((p, f.0)), st.1.push(f.0), f.1)
            } else {
                (st.0, st.1, f.1)
            }
        }
    }
}

/// The assignment state after all ordered candidates.
pub open spec fn spec_assign(cands: Seq<(Seq<char>, int)>) -> (
    Seq<(Seq<char>, char)>,
    Seq<char>,
    int,
)
    decreases cands.len(),
{
    if cands.len() == 0 {
        (Seq::empty(), Seq::empty(), 0)
    } else {
        spec_assign_step(spec_assign(cands.drop_last()), cands.last().0)
    }
}

/// The alias table of a key list: candidate prefixes scored, ordered, and
/// given one-letter tokens, ten at most.
pub open spec fn spec_detect_aliases(keys: Seq<Seq<char>>) -> Seq<(Seq<char>, char)> {
    spec_assign(spec_sort_cands(spec_scored(spec_count_prefixes(keys)))).0
}

/// One column name rewritten through the alias table: a name equal to an
/// aliased prefix, or extending it by a dot, takes the `%token` short form.
pub open spec fn spec_apply_alias(name: Seq<char>, al: Seq<(Seq<char>, char)>) -> Seq<char>
    decreases al.len(),
{
    if al.len() == 0 {
        name
    } else if name == al[0].0 {
        seq!['%', al[0].1]
    } else if name.len() > al[0].0.len() && name.take(al[0].0.len() as int + 1) == al[0].0
        + seq!['.'] {
        seq!['%', al[0].1, '.'] + name.skip(al[0].0.len() as int + 1)
    } else {
        spec_apply_alias(name, al.drop_first())
    }
}


/// Counts one prefix occurrence, as [`spec_bump`] describes.
#[verifier::loop_isolation(false)]
fn bump_count(cnt: &mut Vec<(Vec<char>, i64)>, p: Vec<char>)
    requires
        forall|j: int|
            0 <= j < old(cnt)@.len() ==> 0 <= (#[trigger] old(cnt)@[j]).1 <= 4611686018427387904,
    ensures
        counts_view(final(cnt)@) == spec_bump(counts_view(old(cnt)@), p@),
        forall|j: int|
            0 <= j < final(cnt)@.len() ==> 0 <= (#[trigger] final(cnt)@[j]).1
                <= 4611686018427387904,
{
    let ghost cv = counts_view(cnt@);
    let n = cnt.len();
    let mut i: usize = 0;
    while i < n
        invariant
            i <= n,
            cnt@ == old(cnt)@,
            n == cnt@.len(),
            forall|j: int| 0 <= j < i ==> (#[trigger] cv[j]).0 != p@,
        decreases n - i,
    {
        if chars_eq(cnt[i].0.as_slice(), p.as_slice()) {
            let c = cnt[i].1;
            let c2: i64 = if c < 4611686018427387904i64 {
                c + 1
            } else {
                c
            };
            let k = vstd::slice::slice_to_vec(cnt[i].0.as_slice());
            cnt.remove(i);
            cnt.insert(i, (k, c2));
            proof {
                assert(cv[i as int].0 == p@);
                lemma_bump_found(cv, p@, i as int);
                assert(counts_view(cnt@) =~= cv.update(i as int, (p@, c2 as int)));
                assert forall|j: int|
                    0 <= j < cnt@.len() implies 0 <= (#[trigger] cnt@[j]).1
                    <= 4611686018427387904 by {
                    if j != i {
                        assert(cnt@[j] == old(cnt)@[j]);
                    }
                }
            }
            return ;
        }
        i += 1;
    }
    cnt.push((p, 1));
    proof {
        lemma_bump_missing(cv, p@);
        assert(counts_view(cnt@) =~= cv.push((p@, 1int)));
        assert forall|j: int|
            0 <= j < cnt@.len() implies 0 <= (#[trigger] cnt@[j]).1 <= 4611686018427387904 by {
            if j < cnt@.len() - 1 {
                assert(cnt@[j] == old(cnt)@[j]);
            }
        }
    }
}

/// The view of a prefix-count table.
pub open spec fn counts_view(cs: Seq<(Vec<char>, i64)>) -> Seq<(Seq<char>, int)> {
    Seq::new(cs.len(), |i: int| (cs[i].0@, cs[i].1 as int))
}

/// When the first match sits at `i`, bumping updates that entry in place.
pub proof fn lemma_bump_found(cnt: Seq<(Seq<char>, int)>, p: Seq<char>, i: int)
    requires
        0 <= i < cnt.len(),
        cnt[i].0 == p,
        forall|j: int| 0 <= j < i ==> (#[trigger] cnt[j]).0 != p,
    ensures
        spec_bump(cnt, p) == cnt.update(
            i,
            (
                cnt[i].0,
                if cnt[i].1 < 4611686018427387904 {
                    cnt[i].1 + 1
                } else {
                    cnt[i].1
                },
            ),
        ),
    decreases i,
{
    let c2 = if cnt[i].1 < 4611686018427387904 {
        cnt[i].1 + 1
    } else {
        cnt[i].1
    };
    if i == 0 {
        assert(spec_bump(cnt, p) =~= cnt.update(0, (cnt[0].0, c2)));
    } else {
        assert(forall|j: int| 0 <= j < i - 1 ==> (#[trigger] cnt.drop_first()[j]).0 != p);
        assert(cnt.drop_first()[i - 1] == cnt[i]);
        lemma_bump_found(cnt.drop_first(), p, i - 1);
        assert(spec_bump(cnt, p) =~= cnt.update(i, (cnt[i].0, c2)));
    }
}

/// With no match at all, bumping appends a fresh entry with count one.
pub proof fn lemma_bump_missing(cnt: Seq<(Seq<char>, int)>, p: Seq<char>)
    requires
        forall|j: int| 0 <= j < cnt.len() ==> (#[trigger] cnt[j]).0 != p,
    ensures
        spec_bump(cnt, p) == cnt.push((p, 1int)),
    decreases cnt.len(),
{
    if cnt.len() == 0 {
        assert(spec_bump(cnt, p) =~= cnt.push((p, 1int)));
    } else {
        assert(forall|j: int|
            0 <= j < cnt.drop_first().len() ==> (#[trigger] cnt.drop_first()[j]).0 != p);
        lemma_bump_missing(cnt.drop_first(), p);
        assert(spec_bump(cnt, p) =~= cnt.push((p, 1int)));
    }
}


/// The view of an alias assignment table.
pub open spec fn al_view(al: Seq<(Vec<char>, char)>) -> Seq<(Seq<char>, char)> {
    Seq::new(al.len(), |i: int| (al[i].0@, al[i].1))
}

/// Enumerates a key's non-trivial prefixes, as [`spec_prefixes_of`]
/// describes.
#[verifier::loop_isolation(false)]
pub fn prefixes_of(key: &[char]) -> (r: Vec<Vec<char>>)
    ensures
        views_of(r@) == spec_prefixes_of(key@),
{
    let parts = split_char(key, '.');
    let ghost pv = views_of(parts@);
    let mut out: Vec<Vec<char>> = Vec::new();
    if parts.len() <= 1 {
        proof {
            assert(views_of(out@) =~= spec_prefixes_of(key@));
        }
        return out;
    }
    let mut cur: Vec<char> = vstd::slice::slice_to_vec(parts[0].as_slice());
    proof {
        assert(pv.take(1) =~= seq![pv[0]]);
        assert(cur@ == spec_join(pv.take(1), '.'));
    }
    let n = parts.len();
    let mut i: usize = 0;
    while i < n - 1
        invariant
            i <= n - 1,
            n == parts@.len(),
            n >= 2,
            cur@ == spec_join(pv.take(i + 1 as int), '.'),
            out@.len() == i,
            forall|j: int| 0 <= j < i ==> views_of(out@)[j] == spec_join(pv.take(j + 1), '.'),
        decreases n - i,
    {
        let ghost outpre = views_of(out@);
        let keep = vstd::slice::slice_to_vec(cur.as_slice());
        out.push(keep);
        proof {
            assert forall|j: int|
                0 <= j < i + 1 implies views_of(out@)[j] == spec_join(pv.take(j + 1), '.') by {
                if j < i {
                    assert(views_of(out@)[j] == outpre[j]);
                }
            }
        }
        if i < n - 2 {
            proof {
                assert(pv.take(i + 2 as int) =~= pv.take(i + 1 as int).push(pv[i + 1 as int]));
                lemma_join_push(pv.take(i + 1 as int), pv[i + 1 as int], '.');
            }
            cur.push('.');
            append_chars(&mut cur, parts[i + 1].as_slice());
        } else {
            proof {
                assert(pv.take(i + 2 as int) =~= pv.take(i + 1 as int).push(pv[i + 1 as int]));
                lemma_join_push(pv.take(i + 1 as int), pv[i + 1 as int], '.');
            }
            cur.push('.');
            append_chars(&mut cur, parts[i + 1].as_slice());
        }
        i += 1;
    }
    proof {
        assert(views_of(out@) =~= spec_prefixes_of(key@));
    }
    out
}

/// Builds the prefix-count table of the active keys, as
/// [`spec_count_prefixes`] describes.
#[verifier::loop_isolation(false)]
pub fn count_prefixes(keys: &Vec<Vec<char>>) -> (r: Vec<(Vec<char>, i64)>)
    ensures
        counts_view(r@) == spec_count_prefixes(views_of(keys@)),
        forall|j: int| 0 <= j < r@.len() ==> 0 <= (#[trigger] r@[j]).1 <= 4611686018427387904,
{
    let ghost kv = views_of(keys@);
    let mut cnt: Vec<(Vec<char>, i64)> = Vec::new();
    proof {
        assert(counts_view(cnt@) =~= Seq::<(Seq<char>, int)>::empty());
        assert(kv.take(0) =~= Seq::<Seq<char>>::empty());
    }
    let n = keys.len();
    let mut i: usize = 0;
    while i < n
        invariant
            i <= n,
            counts_view(cnt@) == spec_count_prefixes(kv.take(i as int)),
            forall|j: int| 0 <= j < cnt@.len() ==> 0 <= (#[trigger] cnt@[j]).1
                <= 4611686018427387904,
        decreases n - i,
    {
        proof {
            assert(kv.take(i + 1 as int).drop_last() =~= kv.take(i as int));
            assert(kv.take(i + 1 as int).last() == kv[i as int]);
        }
        let ps = prefixes_of(keys[i].as_slice());
        let ghost psv = views_of(ps@);
        let ghost cnt0 = counts_view(cnt@);
        proof {
            assert(psv.take(0) =~= Seq::<Seq<char>>::empty());
        }
        let m = ps.len();
        let mut j: usize = 0;
        while j < m
            invariant
                j <= m,
                m == ps@.len(),
                psv == views_of(ps@),
                counts_view(cnt@) == spec_bump_all(cnt0, psv.take(j as int)),
                forall|q: int| 0 <= q < cnt@.len() ==> 0 <= (#[trigger] cnt@[q]).1
                    <= 4611686018427387904,
            decreases m - j,
        {
            proof {
                assert(psv.take(j + 1 as int).drop_last() =~= psv.take(j as int));
                assert(psv.take(j + 1 as int).last() == psv[j as int]);
            }
            let p = vstd::slice::slice_to_vec(ps[j].as_slice());
            bump_count(&mut cnt, p);
            j += 1;
        }
        proof {
            assert(psv.take(m as int) =~= psv);
        }
        i += 1;
    }
    proof {
        assert(kv.take(n as int) =~= kv);
    }
    cnt
}

/// Keeps the positively scored candidates, as [`spec_scored`] describes.
#[verifier::loop_isolation(false)]
pub fn scored_candidates(cnt: &Vec<(Vec<char>, i64)>) -> (r: Vec<(Vec<char>, i64)>)
    requires
        forall|j: int| 0 <= j < cnt@.len() ==> 0 <= (#[trigger] cnt@[j]).1 <= 4611686018427387904,
    ensures
        counts_view(r@) == spec_scored(counts_view(cnt@)),
{
    let ghost cv = counts_view(cnt@);
    let mut out: Vec<(Vec<char>, i64)> = Vec::new();
    proof {
        assert(counts_view(out@) =~= Seq::<(Seq<char>, int)>::empty());
        assert(cv.take(0) =~= Seq::<(Seq<char>, int)>::empty());
    }
    let n = cnt.len();
    let mut i: usize = 0;
    while i < n
        invariant
            i <= n,
            counts_view(out@) == spec_scored(cv.take(i as int)),
        decreases n - i,
    {
        proof {
            assert(cv.take(i + 1 as int).drop_last() =~= cv.take(i as int));
            assert(cv.take(i + 1 as int).last() == cv[i as int]);
        }
        let plen = cnt[i].0.len();
        let l: i64 = if plen > 2147483647 {
            2147483647
        } else {
            plen as i64
        };
        let c: i64 = if cnt[i].1 > 2147483647 {
            2147483647
        } else {
            cnt[i].1
        };
        proof {
            assert((l - 2) * c <= 4611686018427387904 && (l - 2) * c >= -4611686018427387904)
                by (nonlinear_arith)
                requires
                    -2 <= l - 2 <= 2147483645,
                    0 <= c <= 2147483647,
            ;
        }
        let score: i64 = (l - 2) * c - (l + 4);
        if score > 0 {
            let ghost outpre = counts_view(out@);
            let p = vstd::slice::slice_to_vec(cnt[i].0.as_slice());
            out.push((p, score));
            proof {
                assert(counts_view(out@) =~= outpre.push((cv[i as int].0, score as int)));
            }
        }
        i += 1;
    }
    proof {
        assert(cv.take(n as int) =~= cv);
    }
    out
}

/// Compares two candidates, as [`spec_cand_le`] describes.
pub fn cand_le(a: &(Vec<char>, i64), b: &(Vec<char>, i64)) -> (r: bool)
    ensures
        r == spec_cand_le((a.0@, a.1 as int), (b.0@, b.1 as int)),
{
    if a.1 > b.1 {
        true
    } else if a.1 == b.1 {
        lex_le(a.0.as_slice(), b.0.as_slice())
    } else {
        false
    }
}

/// Inserts into the sorted candidates, as [`spec_insert_cand`] describes.
pub fn insert_cand(sorted: Vec<(Vec<char>, i64)>, x: (Vec<char>, i64)) -> (r: Vec<(Vec<char>, i64)>)
    ensures
        counts_view(r@) == spec_insert_cand(counts_view(sorted@), (x.0@, x.1 as int)),
    decreases sorted@.len(),
{
    let ghost sv = counts_view(sorted@);
    if sorted.len() == 0 {
        let mut r: Vec<(Vec<char>, i64)> = Vec::new();
        let ghost xv = (x.0@, x.1 as int);
        r.push(x);
        proof {
            assert(counts_view(r@) =~= seq![xv]);
        }
        r
    } else if cand_le(&x, &sorted[0]) {
        let mut r = sorted;
        let ghost r0 = r@;
        let ghost xv = (x.0@, x.1 as int);
        r.insert(0, x);
        proof {
            assert(counts_view(r@) =~= seq![xv] + counts_view(r0));
        }
        r
    } else {
        let mut s = sorted;
        let h = s.remove(0);
        proof {
            assert(counts_view(s@) =~= sv.drop_first());
        }
        let mut t = insert_cand(s, x);
        let ghost t0 = t@;
        t.insert(0, h);
        proof {
            assert(counts_view(t@) =~= seq![sv[0]] + counts_view(t0));
        }
        t
    }
}

/// Sorts the candidates by score, then prefix text, as
/// [`spec_sort_cands`] describes.
pub fn sort_cands(v: Vec<(Vec<char>, i64)>) -> (r: Vec<(Vec<char>, i64)>)
    ensures
        counts_view(r@) == spec_sort_cands(counts_view(v@)),
    decreases v@.len(),
{
    let ghost vv = counts_view(v@);
    if v.len() == 0 {
        assert(counts_view(v@) =~= Seq::<(Seq<char>, int)>::empty());
        v
    } else {
        let mut v = v;
        let last = match v.pop() {
            Some(x) => x,
            None => {
                proof {
                    assert(false);
                }
                (Vec::new(), 0)
            },
        };
        proof {
            assert(counts_view(v@) =~= vv.drop_last());
            assert((last.0@, last.1 as int) == vv.last());
        }
        let sorted = sort_cands(v);
        insert_cand(sorted, last)
    }
}

/// Whether a character list holds `c`.
pub fn contains_char(v: &Vec<char>, c: char) -> (r: bool)
    ensures
        r == v@.contains(c),
{
    let n = v.len();
    let mut i: usize = 0;
    while i < n
        invariant
            i <= n,
            n == v@.len(),
            forall|j: int| 0 <= j < i ==> v@[j] != c,
        decreases n - i,
    {
        if v[i] == c {
            assert(v@[i as int] == c);
            return true;
        }
        i += 1;
    }
    proof {
        if v@.contains(c) {
            let j = choose|j: int| 0 <= j < v@.len() && v@[j] == c;
            assert(v@[j] != c);
        }
    }
    false
}

/// Walks the letter fallback, as [`spec_fallback`] describes.
#[verifier::loop_isolation(false)]
pub fn fallback_token(used: &Vec<char>, cand: char, idx: i64) -> (r: (char, i64))
    requires
        0 <= idx,
    ensures
        spec_fallback(used@, cand, idx as int) == (r.0, r.1 as int),
        r.1 >= 0,
{
    let mut cand = cand;
    let mut idx = idx;
    let ghost c0 = cand;
    let ghost i0 = idx as int;
    while contains_char(used, cand) && idx <= 25
        invariant
            0 <= idx,
            spec_fallback(used@, c0, i0) == spec_fallback(used@, cand, idx as int),
        decreases 26 - idx,
    {
        cand = (97 + idx as u8) as char;
        idx = idx + 1;
    }
    (cand, idx)
}

/// Assigns alias tokens to the ordered candidates, as [`spec_assign`]
/// describes.
#[verifier::loop_isolation(false)]
pub fn assign_tokens(cands: &Vec<(Vec<char>, i64)>) -> (r: Vec<(Vec<char>, char)>)
    ensures
        al_view(r@) == spec_assign(counts_view(cands@)).0,
{
    let ghost cv = counts_view(cands@);
    let mut aliases: Vec<(Vec<char>, char)> = Vec::new();
    let mut used: Vec<char> = Vec::new();
    let mut idx: i64 = 0;
    proof {
        assert(cv.take(0) =~= Seq::<(Seq<char>, int)>::empty());
        assert(al_view(aliases@) =~= Seq::<(Seq<char>, char)>::empty());
        assert(used@ =~= Seq::<char>::empty());
    }
    let n = cands.len();
    let mut i: usize = 0;
    while i < n
        invariant
            i <= n,
            idx >= 0,
            spec_assign(cv.take(i as int)) == (al_view(aliases@), used@, idx as int),
        decreases n - i,
    {
        proof {
            assert(cv.take(i + 1 as int).drop_last() =~= cv.take(i as int));
            assert(cv.take(i + 1 as int).last() == cv[i as int]);
        }
        if aliases.len() < 10 {
            let parts = split_char(cands[i].0.as_slice(), '.');
            proof {
                assert(views_of(parts@).len() >= 1);
            }
            let seg = &parts[parts.len() - 1];
            proof {
                assert(views_of(parts@).last() == seg@);
            }
            if seg.len() > 0 {
                let c0 = seg[0];
                let u = c0 as u32;
                let lowered: char = if 65 <= u && u <= 90 {
                    ((u + 32) as u8) as char
                } else {
                    c0
                };
                proof {
                    assert(lowered == spec_lower(seg@[0]));
                }
                let f = fallback_token(&used, lowered, idx);
                idx = f.1;
                if !contains_char(&used, f.0) {
                    let ghost alpre = al_view(aliases@);
                    let p = vstd::slice::slice_to_vec(cands[i].0.as_slice());
                    aliases.push((p, f.0));
                    used.push(f.0);
                    proof {
                        assert(al_view(aliases@) =~= alpre.push((cv[i as int].0, f.0)));
                    }
                }
            }
        }
        i += 1;
    }
    proof {
        assert(cv.take(n as int) =~= cv);
    }
    aliases
}

/// Detects the alias table of the active column names, as
/// [`spec_detect_aliases`] describes: prefixes scored by shared use, best
/// first, each given a one-letter token, ten at most.
pub fn detect_aliases(keys: &Vec<Vec<char>>) -> (r: Vec<(Vec<char>, char)>)
    ensures
        al_view(r@) == spec_detect_aliases(views_of(keys@)),
{
    let cnt = count_prefixes(keys);
    let sc = scored_candidates(&cnt);
    let sorted = sort_cands(sc);
    assign_tokens(&sorted)
}

/// Rewrites one column name through the alias table, as
/// [`spec_apply_alias`] describes.
#[verifier::loop_isolation(false)]
pub fn apply_alias(name: &[char], aliases: &Vec<(Vec<char>, char)>) -> (r: Vec<char>)
    ensures
        r@ == spec_apply_alias(name@, al_view(aliases@)),
{
    let ghost av = al_view(aliases@);
    proof {
        assert(av.skip(0) =~= av);
    }
    let n = aliases.len();
    let mut i: usize = 0;
    while i < n
        invariant
            i <= n,
            spec_apply_alias(name@, av) == spec_apply_alias(name@, av.skip(i as int)),
        decreases n - i,
    {
        proof {
            assert(av.skip(i as int)[0] == av[i as int]);
            assert(av.skip(i as int).drop_first() =~= av.skip(i + 1 as int));
        }
        let p = &aliases[i].0;
        if chars_eq(name, p.as_slice()) {
            let mut out: Vec<char> = Vec::new();
            out.push('%');
            out.push(aliases[i].1);
            proof {
                assert(out@ =~= seq!['%', av[i as int].1]);
            }
            return out;
        }
        if name.len() > p.len() {
            let mut pdot = vstd::slice::slice_to_vec(p.as_slice());
            pdot.push('.');
            let head = &name[0..p.len() + 1];
            proof {
                assert(head@ =~= name@.take(av[i as int].0.len() as int + 1));
                assert(pdot@ =~= av[i as int].0 + seq!['.']);
            }
            if chars_eq(head, pdot.as_slice()) {
                let mut out: Vec<char> = Vec::new();
                out.push('%');
                out.push(aliases[i].1);
                out.push('.');
                let ghost o0 = out@;
                append_chars(&mut out, &name[p.len() + 1..name.len()]);
                proof {
                    assert(o0 =~= seq!['%', av[i as int].1, '.']);
                    assert(name@.subrange(p@.len() as int + 1, name@.len() as int) =~= name@.skip(
                        av[i as int].0.len() as int + 1,
                    ));
                }
                return out;
            }
        }
        i += 1;
    }
    proof {
        assert(av.skip(n as int) =~= Seq::<(Seq<char>, char)>::empty());
    }
    vstd::slice::slice_to_vec(name)
}


/// The serialized cells of one column, in row order.
pub open spec fn spec_col_values(rows: Seq<Seq<(Seq<char>, ValueView)>>, k: Seq<char>) -> Seq<
    Seq<char>,
> {
    Seq::new(rows.len(), |i: int| spec_cell(rows[i], k))
}

/// The distinct cells, in first-seen order.
pub open spec fn spec_distinct(values: Seq<Seq<char>>) -> Seq<Seq<char>>
    decreases values.len(),
{
    if values.len() == 0 {
        Seq::empty()
    } else {
        spec_add_key(spec_distinct(values.drop_last()), values.last())
    }
}

/// Whether every value of the column is numeric.
pub open spec fn spec_col_numeric(rows: Seq<Seq<(Seq<char>, ValueView)>>, k: Seq<char>) -> bool {
    forall|i: int|
        0 <= i < rows.len() ==> (spec_lookup_row(#[trigger] rows[i], k) is Int || spec_lookup_row(
            rows[i],
            k,
        ) is Num)
}

/// The per-column statistics the encoder gathers: the serialized cells in
/// row order, the distinct cells, and whether every value is numeric (the
/// sequence flag, read only for `id`-named columns).
pub struct ColumnStats {
    pub values: Vec<Vec<char>>,
    pub distinct: Vec<Vec<char>>,
    pub is_seq: bool,
}

/// Gathers one column's statistics across the rows.
#[verifier::loop_isolation(false)]
pub fn build_stats(rows: &Vec<Vec<(Vec<char>, Value)>>, k: &[char]) -> (r: ColumnStats)
    ensures
        views_of(r.values@) == spec_col_values(rows_view(rows@), k@),
        views_of(r.distinct@) == spec_distinct(spec_col_values(rows_view(rows@), k@)),
        r.is_seq == spec_col_numeric(rows_view(rows@), k@),
{
    let ghost rsv = rows_view(rows@);
    let ghost cvals = spec_col_values(rsv, k@);
    let mut values: Vec<Vec<char>> = Vec::new();
    let mut distinct: Vec<Vec<char>> = Vec::new();
    let mut is_seq = true;
    proof {
        assert(cvals.take(0) =~= Seq::<Seq<char>>::empty());
        assert(views_of(values@) =~= Seq::<Seq<char>>::empty());
        assert(views_of(distinct@) =~= Seq::<Seq<char>>::empty());
    }
    let n = rows.len();
    let mut i: usize = 0;
    while i < n
        invariant
            i <= n,
            views_of(values@) == cvals.take(i as int),
            views_of(distinct@) == spec_distinct(cvals.take(i as int)),
            is_seq == (forall|j: int|
                0 <= j < i ==> (spec_lookup_row(#[trigger] rsv[j], k@) is Int || spec_lookup_row(
                    rsv[j],
                    k@,
                ) is Num)),
        decreases n - i,
    {
        proof {
            assert(cvals.take(i + 1 as int).drop_last() =~= cvals.take(i as int));
            assert(cvals.take(i + 1 as int).last() == cvals[i as int]);
        }
        let v = lookup_row(&rows[i], k);
        let cell = serialize_chars(&v);
        let ghost vpre = views_of(values@);
        let ghost dpre = views_of(distinct@);
        let numeric = match &v {
            Value::Int(_) => true,
            Value::Num(_) => true,
            _ => false,
        };
        if !numeric {
            is_seq = false;
        }
        if !contains_key(&distinct, cell.as_slice()) {
            let c2 = vstd::slice::slice_to_vec(cell.as_slice());
            distinct.push(c2);
            proof {
                assert(views_of(distinct@) =~= dpre.push(cvals[i as int]));
            }
        }
        values.push(cell);
        proof {
            assert(views_of(values@) =~= vpre.push(cvals[i as int]));
        }
        i += 1;
    }
    proof {
        assert(cvals.take(n as int) =~= cvals);
    }
    ColumnStats { values, distinct, is_seq }
}

/// Whether the column name is `id`, case-insensitively.
pub open spec fn spec_is_id(k: Seq<char>) -> bool {
    k.len() == 2 && (k[0] == 'i' || k[0] == 'I') && (k[1] == 'd' || k[1] == 'D')
}

/// Whether the cells in row order are exactly the decimal numbers `1..N`.
pub open spec fn spec_check_sequence(values: Seq<Seq<char>>) -> bool {
    forall|i: int| 0 <= i < values.len() ==> #[trigger] values[i] == spec_u64_chars((i + 1) as nat)
}

/// Tests a column for the auto-increment shape, as
/// [`spec_check_sequence`] describes.
pub fn check_sequence(values: &Vec<Vec<char>>) -> (r: bool)
    ensures
        r == spec_check_sequence(views_of(values@)),
{
    let n = values.len();
    let mut i: usize = 0;
    while i < n
        invariant
            i <= n,
            n == values@.len(),
            forall|j: int| 0 <= j < i ==> #[trigger] views_of(values@)[j] == spec_u64_chars(
                (j + 1) as nat,
            ),
        decreases n - i,
    {
        let expected = u64_chars((i + 1) as u64);
        if !chars_eq(values[i].as_slice(), expected.as_slice()) {
            assert(views_of(values@)[i as int] != spec_u64_chars((i + 1) as nat));
            return false;
        }
        i += 1;
    }
    true
}

/// Whether every cell is an integer literal or the null marker.
pub open spec fn spec_all_int_or_null(values: Seq<Seq<char>>) -> bool {
    forall|i: int|
        0 <= i < values.len() ==> (spec_parse_i64(#[trigger] values[i]) is Some || values[i]
            == "~"@)
}

/// Whether every cell is the null marker.
pub open spec fn spec_all_null(values: Seq<Seq<char>>) -> bool {
    forall|i: int| 0 <= i < values.len() ==> #[trigger] values[i] == "~"@
}

/// Whether every cell is `0`, `1` or the null marker.
pub open spec fn spec_all_bool(values: Seq<Seq<char>>) -> bool {
    forall|i: int|
        0 <= i < values.len() ==> (#[trigger] values[i] == "0"@ || values[i] == "1"@ || values[i]
            == "~"@)
}

/// The distinct cells without the null marker.
pub open spec fn spec_remove_null(d: Seq<Seq<char>>) -> Seq<Seq<char>>
    decreases d.len(),
{
    if d.len() == 0 {
        Seq::empty()
    } else {
        let rec = spec_remove_null(d.drop_last());
        if d.last() == "~"@ {
            rec
        } else {
            rec.push(d.last())
        }
    }
}

/// The inferred type code of one column, first matching rule first: the
/// auto-increment shape for a numeric `id` column holding exactly `1..N`;
/// `i` when every cell is an integer or null and not all are null; `b` when
/// every cell is `0`, `1` or null; a pipe-joined enum set when the distinct
/// non-null cells are few and repeat across rows; else `s`.
pub open spec fn spec_infer_type(
    values: Seq<Seq<char>>,
    distinct: Seq<Seq<char>>,
    is_seq: bool,
    arr_len: int,
    k: Seq<char>,
) -> Seq<char> {
    if spec_is_id(k) && is_seq && spec_check_sequence(values) {
        "i+"@
    } else if spec_all_int_or_null(values) && !spec_all_null(values) {
        "i"@
    } else if spec_all_bool(values) {
        "b"@
    } else {
        let nn = spec_remove_null(distinct);
        if 1 <= nn.len() <= 10 && nn.len() < arr_len {
            seq!['='] + spec_join(spec_sort_keys(nn), '|')
        } else {
            "s"@
        }
    }
}

fn is_id_name(k: &[char]) -> (r: bool)
    ensures
        r == spec_is_id(k@),
{
    k.len() == 2 && (k[0] == 'i' || k[0] == 'I') && (k[1] == 'd' || k[1] == 'D')
}

fn all_int_or_null(values: &Vec<Vec<char>>) -> (r: bool)
    ensures
        r == spec_all_int_or_null(views_of(values@)),
{
    let n = values.len();
    let mut i: usize = 0;
    while i < n
        invariant
            i <= n,
            n == values@.len(),
            forall|j: int|
                0 <= j < i ==> (spec_parse_i64(#[trigger] views_of(values@)[j]) is Some
                    || views_of(values@)[j] == "~"@),
        decreases n - i,
    {
        let ok = match crate::text::parse_i64(values[i].as_slice()) {
            Some(_) => true,
            None => chars_eq_str(values[i].as_slice(), "~"),
        };
        if !ok {
            assert(!(spec_parse_i64(views_of(values@)[i as int]) is Some || views_of(values@)[i as int]
                == "~"@));
            return false;
        }
        i += 1;
    }
    true
}

fn all_null(values: &Vec<Vec<char>>) -> (r: bool)
    ensures
        r == spec_all_null(views_of(values@)),
{
    let n = values.len();
    let mut i: usize = 0;
    while i < n
        invariant
            i <= n,
            n == values@.len(),
            forall|j: int| 0 <= j < i ==> #[trigger] views_of(values@)[j] == "~"@,
        decreases n - i,
    {
        if !chars_eq_str(values[i].as_slice(), "~") {
            assert(views_of(values@)[i as int] != "~"@);
            return false;
        }
        i += 1;
    }
    true
}

fn all_bool(values: &Vec<Vec<char>>) -> (r: bool)
    ensures
        r == spec_all_bool(views_of(values@)),
{
    let n = values.len();
    let mut i: usize = 0;
    while i < n
        invariant
            i <= n,
            n == values@.len(),
            forall|j: int|
                0 <= j < i ==> (#[trigger] views_of(values@)[j] == "0"@ || views_of(values@)[j]
                    == "1"@ || views_of(values@)[j] == "~"@),
        decreases n - i,
    {
        let ok = chars_eq_str(values[i].as_slice(), "0") || chars_eq_str(values[i].as_slice(), "1")
            || chars_eq_str(values[i].as_slice(), "~");
        if !ok {
            assert(!(views_of(values@)[i as int] == "0"@ || views_of(values@)[i as int] == "1"@
                || views_of(values@)[i as int] == "~"@));
            return false;
        }
        i += 1;
    }
    true
}

fn remove_null(d: &Vec<Vec<char>>) -> (r: Vec<Vec<char>>)
    ensures
        views_of(r@) == spec_remove_null(views_of(d@)),
{
    let ghost dv = views_of(d@);
    let mut out: Vec<Vec<char>> = Vec::new();
    proof {
        assert(dv.take(0) =~= Seq::<Seq<char>>::empty());
        assert(views_of(out@) =~= Seq::<Seq<char>>::empty());
    }
    let n = d.len();
    let mut i: usize = 0;
    while i < n
        invariant
            i <= n,
            n == d@.len(),
            dv == views_of(d@),
            views_of(out@) == spec_remove_null(dv.take(i as int)),
        decreases n - i,
    {
        proof {
            assert(dv.take(i + 1 as int).drop_last() =~= dv.take(i as int));
            assert(dv.take(i + 1 as int).last() == dv[i as int]);
        }
        if !chars_eq_str(d[i].as_slice(), "~") {
            let ghost pre = views_of(out@);
            out.push(vstd::slice::slice_to_vec(d[i].as_slice()));
            proof {
                assert(views_of(out@) =~= pre.push(dv[i as int]));
            }
        }
        i += 1;
    }
    proof {
        assert(dv.take(n as int) =~= dv);
    }
    out
}

/// Infers one column's type code, as [`spec_infer_type`] describes.
pub fn infer_type(stat: &ColumnStats, arr_len: usize, key: &[char]) -> (r: Vec<char>)
    ensures
        r@ == spec_infer_type(
            views_of(stat.values@),
            views_of(stat.distinct@),
            stat.is_seq,
            arr_len as int,
            key@,
        ),
{
    if is_id_name(key) && stat.is_seq && check_sequence(&stat.values) {
        return str_to_chars("i+");
    }
    if all_int_or_null(&stat.values) && !all_null(&stat.values) {
        return str_to_chars("i");
    }
    if all_bool(&stat.values) {
        return str_to_chars("b");
    }
    let nn = remove_null(&stat.distinct);
    if 1 <= nn.len() && nn.len() <= 10 && nn.len() < arr_len {
        let sorted = sort_keys(nn);
        let joined = join_chars(&sorted, '|');
        let mut out: Vec<char> = Vec::new();
        out.push('=');
        let ghost o0 = out@;
        append_chars(&mut out, joined.as_slice());
        proof {
            assert(o0 =~= seq!['=']);
        }
        out
    } else {
        str_to_chars("s")
    }
}


/// The flat rows of an array's elements.
pub open spec fn spec_flat_rows(items: Seq<ValueView>) -> Seq<Seq<(Seq<char>, ValueView)>> {
    Seq::new(items.len(), |i: int| spec_flatten_into(Seq::empty(), Seq::empty(), items[i]))
}

/// One column's inferred type code over the gathered statistics.
pub open spec fn spec_col_type(
    rows: Seq<Seq<(Seq<char>, ValueView)>>,
    k: Seq<char>,
    arr_len: int,
) -> Seq<char> {
    spec_infer_type(
        spec_col_values(rows, k),
        spec_distinct(spec_col_values(rows, k)),
        spec_col_numeric(rows, k),
        arr_len,
        k,
    )
}

/// One `@name<sep>value` header token of a hoisted constant.
pub open spec fn spec_const_token(
    k: Seq<char>,
    v: ValueView,
    aliases: Seq<(Seq<char>, char)>,
) -> Seq<char> {
    let an = spec_replace(spec_apply_alias(k, aliases), ' ', '_');
    let sep: char = if v is Str {
        '='
    } else {
        ':'
    };
    let disp = match v {
        ValueView::Bool(b) => if b {
            "y"@
        } else {
            "n"@
        },
        _ => spec_serialize(v),
    };
    seq!['@'] + an + seq![sep] + disp
}

/// One positional column's header token.
pub open spec fn spec_col_token(k: Seq<char>, t: Seq<char>, aliases: Seq<(Seq<char>, char)>) -> Seq<
    char,
> {
    let an = spec_replace(spec_apply_alias(k, aliases), ' ', '_');
    if t.len() > 0 && t[0] == '=' {
        an + t
    } else {
        an + seq![':'] + t
    }
}

/// Whether every active column is elided from the rows.
pub open spec fn spec_all_elided(types: Seq<Seq<char>>) -> bool {
    forall|i: int| 0 <= i < types.len() ==> #[trigger] types[i] == "i+"@
}

/// One row's rendered cells: the active, non-elided columns in order.
pub open spec fn spec_row_cells(
    row: Seq<(Seq<char>, ValueView)>,
    active: Seq<Seq<char>>,
    types: Seq<Seq<char>>,
) -> Seq<Seq<char>>
    decreases active.len(),
{
    if active.len() == 0 {
        Seq::empty()
    } else {
        let rec = spec_row_cells(row, active.drop_last(), types.drop_last());
        if types.len() >= 1 && types.last() == "i+"@ {
            rec
        } else {
            rec.push(spec_cell(row, active.last()))
        }
    }
}

/// The sorted alias-definition tokens.
pub open spec fn spec_alias_defs(aliases: Seq<(Seq<char>, char)>) -> Seq<Seq<char>> {
    spec_sort_keys(Seq::new(aliases.len(), |i: int| seq!['%', aliases[i].1, '='] + aliases[i].0))
}

/// The rendering of a whole array as one tabular block: an optional alias
/// line, the header (constants, columns, and the `+N` count when every
/// column is elided), and one line per element unless all columns are
/// elided.
pub open spec fn spec_encode_tabular(items: Seq<ValueView>) -> Seq<char> {
    if items.len() == 0 {
        Seq::empty()
    } else {
        let rows = spec_flat_rows(items);
        let sorted = spec_sort_keys(spec_all_keys(rows));
        let pa = if items.len() > 1 {
            spec_split_keys(rows, sorted)
        } else {
            (Seq::<(Seq<char>, ValueView)>::empty(), sorted)
        };
        let consts = pa.0;
        let active = pa.1;
        let aliases = spec_detect_aliases(active);
        let types = Seq::new(active.len(), |i: int| spec_col_type(rows, active[i], items.len() as int));
        let consts_toks = Seq::new(
            consts.len(),
            |i: int| spec_const_token(consts[i].0, consts[i].1, aliases),
        );
        let col_toks = Seq::new(active.len(), |i: int| spec_col_token(active[i], types[i], aliases));
        let elided = spec_all_elided(types);
        let plus: Seq<Seq<char>> = if elided {
            seq![seq!['+'] + spec_u64_chars(items.len())]
        } else {
            Seq::empty()
        };
        let header = spec_join(seq!["#"@] + consts_toks + col_toks + plus, ' ');
        let alias_lines: Seq<Seq<char>> = if aliases.len() > 0 {
            seq![spec_join(spec_alias_defs(aliases), ' ')]
        } else {
            Seq::empty()
        };
        let row_lines: Seq<Seq<char>> = if elided {
            Seq::empty()
        } else {
            Seq::new(items.len(), |r: int| spec_join(spec_row_cells(rows[r], active, types), ' '))
        };
        spec_join(alias_lines + seq![header] + row_lines, '\n')
    }
}

fn all_iplus(types: &Vec<Vec<char>>) -> (r: bool)
    ensures
        r == spec_all_elided(views_of(types@)),
{
    let n = types.len();
    let mut i: usize = 0;
    while i < n
        invariant
            i <= n,
            n == types@.len(),
            forall|j: int| 0 <= j < i ==> #[trigger] views_of(types@)[j] == "i+"@,
        decreases n - i,
    {
        if !chars_eq_str(types[i].as_slice(), "i+") {
            assert(views_of(types@)[i as int] != "i+"@);
            return false;
        }
        i += 1;
    }
    true
}

/// Renders a whole array as one tabular block, as [`spec_encode_tabular`]
/// describes.
#[verifier::loop_isolation(false)]
#[verifier::rlimit(80)]
pub fn encode_tabular(arr: &Vec<Value>) -> (r: Result<String, ZoonError>)
    ensures
        r matches Ok(s) && s@ == spec_encode_tabular(view_items(arr@)),
{
    let ghost items = view_items(arr@);
    proof {
        lemma_view_items(arr@);
    }
    if arr.len() == 0 {
        let out = String::new();
        assert(out@ =~= spec_encode_tabular(items));
        return Ok(out);
    }
    let n = arr.len();
    let mut rows: Vec<Vec<(Vec<char>, Value)>> = Vec::new();
    let mut i: usize = 0;
    while i < n
        invariant
            i <= n,
            rows@.len() == i,
            forall|j: int|
                0 <= j < i ==> #[trigger] rows_view(rows@)[j] == spec_flatten_into(
                    Seq::empty(),
                    Seq::empty(),
                    items[j],
                ),
        decreases n - i,
    {
        let mut row: Vec<(Vec<char>, Value)> = Vec::new();
        let prefix: Vec<char> = Vec::new();
        proof {
            assert(crate::paths::row_view(row@) =~= Seq::<(Seq<char>, ValueView)>::empty());
            assert(prefix@ =~= Seq::<char>::empty());
        }
        flatten_into(&mut row, prefix, &arr[i]);
        let ghost rvpre = rows_view(rows@);
        rows.push(row);
        proof {
            assert forall|j: int|
                0 <= j < i + 1 implies #[trigger] rows_view(rows@)[j] == spec_flatten_into(
                Seq::empty(),
                Seq::empty(),
                items[j],
            ) by {
                if j < i {
                    assert(rows_view(rows@)[j] == rvpre[j]);
                }
            }
        }
        i += 1;
    }
    let ghost rws = rows_view(rows@);
    proof {
        assert(rws =~= spec_flat_rows(items));
    }
    let mut keys: Vec<Vec<char>> = Vec::new();
    proof {
        assert(views_of(keys@) =~= Seq::<Seq<char>>::empty());
        assert(rws.take(0) =~= Seq::<Seq<(Seq<char>, ValueView)>>::empty());
    }
    let mut r0: usize = 0;
    while r0 < n
        invariant
            r0 <= n,
            rows@.len() == n,
            rws == rows_view(rows@),
            views_of(keys@) == spec_all_keys(rws.take(r0 as int)),
        decreases n - r0,
    {
        proof {
            assert(rws.take(r0 + 1 as int).drop_last() =~= rws.take(r0 as int));
            assert(rws.take(r0 + 1 as int).last() == rws[r0 as int]);
        }
        add_row_keys(&mut keys, &rows[r0]);
        r0 += 1;
    }
    proof {
        assert(rws.take(n as int) =~= rws);
    }
    let sorted = sort_keys(keys);
    let ghost sortedv = views_of(sorted@);
    let mut consts: Vec<(Vec<char>, Value)> = Vec::new();
    let mut active: Vec<Vec<char>> = Vec::new();
    if arr.len() > 1 {
        proof {
            assert(crate::paths::row_view(consts@) =~= Seq::<(Seq<char>, ValueView)>::empty());
            assert(views_of(active@) =~= Seq::<Seq<char>>::empty());
            assert(sortedv.take(0) =~= Seq::<Seq<char>>::empty());
        }
        let m = sorted.len();
        let mut k: usize = 0;
        while k < m
            invariant
                k <= m,
                m == sorted@.len(),
                sortedv == views_of(sorted@),
                spec_split_keys(rws, sortedv.take(k as int)) == (
                    crate::paths::row_view(consts@),
                    views_of(active@),
                ),
            decreases m - k,
        {
            proof {
                assert(sortedv.take(k + 1 as int).drop_last() =~= sortedv.take(k as int));
                assert(sortedv.take(k + 1 as int).last() == sortedv[k as int]);
            }
            let kk = vstd::slice::slice_to_vec(sorted[k].as_slice());
            if is_const(&rows, kk.as_slice()) {
                let v0 = lookup_row(&rows[0], kk.as_slice());
                let ghost cpre = crate::paths::row_view(consts@);
                proof {
                    crate::paths::lemma_row_view(consts@);
                    assert(rows_view(rows@)[0] == crate::paths::row_view(rows@[0]@));
                }
                consts.push((kk, v0));
                proof {
                    crate::paths::lemma_row_view(consts@);
                    assert(crate::paths::row_view(consts@) =~= cpre.push(
                        (sortedv[k as int], spec_lookup_row(rws[0], sortedv[k as int])),
                    ));
                }
            } else {
                let ghost apre = views_of(active@);
                active.push(kk);
                proof {
                    assert(views_of(active@) =~= apre.push(sortedv[k as int]));
                }
            }
            k += 1;
        }
        proof {
            assert(sortedv.take(m as int) =~= sortedv);
        }
    } else {
        active = sorted;
        proof {
            assert(crate::paths::row_view(consts@) =~= Seq::<(Seq<char>, ValueView)>::empty());
        }
    }
    let ghost constsv = crate::paths::row_view(consts@);
    let ghost activev = views_of(active@);
    let aliases = detect_aliases(&active);
    let ghost alv = al_view(aliases@);
    let mut types: Vec<Vec<char>> = Vec::new();
    let na = active.len();
    let mut c: usize = 0;
    while c < na
        invariant
            c <= na,
            na == active@.len(),
            activev == views_of(active@),
            rws == rows_view(rows@),
            arr@.len() == n,
            types@.len() == c,
            forall|j: int|
                0 <= j < c ==> #[trigger] views_of(types@)[j] == spec_col_type(
                    rws,
                    activev[j],
                    n as int,
                ),
        decreases na - c,
    {
        let st = build_stats(&rows, active[c].as_slice());
        let t = infer_type(&st, n, active[c].as_slice());
        let ghost tpre = views_of(types@);
        types.push(t);
        proof {
            assert forall|j: int|
                0 <= j < c + 1 implies #[trigger] views_of(types@)[j] == spec_col_type(
                rws,
                activev[j],
                n as int,
            ) by {
                if j < c {
                    assert(views_of(types@)[j] == tpre[j]);
                }
            }
        }
        c += 1;
    }
    let ghost typesv = views_of(types@);
    proof {
        assert(typesv =~= Seq::new(activev.len(), |i: int| spec_col_type(rws, activev[i], n as int)));
    }
    let elided = all_iplus(&types);
    let mut parts: Vec<Vec<char>> = Vec::new();
    parts.push(str_to_chars("#"));
    let ghost consts_toks = Seq::new(
        constsv.len(),
        |i: int| spec_const_token(constsv[i].0, constsv[i].1, alv),
    );
    proof {
        assert(views_of(parts@) =~= seq!["#"@] + consts_toks.take(0));
    }
    let nc = consts.len();
    let mut ci: usize = 0;
    while ci < nc
        invariant
            ci <= nc,
            nc == consts@.len(),
            constsv == crate::paths::row_view(consts@),
            views_of(parts@) == seq!["#"@] + consts_toks.take(ci as int),
        decreases nc - ci,
    {
        proof {
            crate::paths::lemma_row_view(consts@);
        }
        let an = apply_alias(consts[ci].0.as_slice(), &aliases);
        let anu = replace_char(an.as_slice(), ' ', '_');
        let mut tok: Vec<char> = Vec::new();
        tok.push('@');
        let ghost t0 = tok@;
        append_chars(&mut tok, anu.as_slice());
        let sep: char = match &consts[ci].1 {
            Value::Str(_) => '=',
            _ => ':',
        };
        tok.push(sep);
        let disp: Vec<char> = match &consts[ci].1 {
            Value::Bool(b) => {
                let lit: &str = if *b {
                    "y"
                } else {
                    "n"
                };
                str_to_chars(lit)
            },
            _ => serialize_chars(&consts[ci].1),
        };
        append_chars(&mut tok, disp.as_slice());
        proof {
            assert(t0 =~= seq!['@']);
            assert(constsv[ci as int] == (consts@[ci as int].0@, consts@[ci as int].1@));
            assert(an@ == spec_apply_alias(constsv[ci as int].0, alv));
            assert(anu@ == spec_replace(spec_apply_alias(constsv[ci as int].0, alv), ' ', '_'));
            assert(sep == (if constsv[ci as int].1 is Str {
                '='
            } else {
                ':'
            }));
            assert(disp@ == (match constsv[ci as int].1 {
                ValueView::Bool(b) => if b {
                    "y"@
                } else {
                    "n"@
                },
                _ => spec_serialize(constsv[ci as int].1),
            }));
            assert(tok@ =~= seq!['@'] + anu@ + seq![sep] + disp@);
            assert(tok@ =~= spec_const_token(constsv[ci as int].0, constsv[ci as int].1, alv));
        }
        let ghost ppre = views_of(parts@);
        parts.push(tok);
        proof {
            assert(views_of(parts@) =~= ppre.push(consts_toks[ci as int]));
            assert(views_of(parts@) =~= seq!["#"@] + consts_toks.take(ci + 1 as int));
        }
        ci += 1;
    }
    proof {
        crate::paths::lemma_row_view(consts@);
        assert(consts_toks.take(nc as int) =~= consts_toks);
    }
    let ghost col_toks = Seq::new(activev.len(), |i: int| spec_col_token(activev[i], typesv[i], alv));
    let mut ai: usize = 0;
    while ai < na
        invariant
            ai <= na,
            na == active@.len(),
            activev == views_of(active@),
            typesv == views_of(types@),
            types@.len() == na,
            views_of(parts@) == seq!["#"@] + consts_toks + col_toks.take(ai as int),
        decreases na - ai,
    {
        let an = apply_alias(active[ai].as_slice(), &aliases);
        let anu = replace_char(an.as_slice(), ' ', '_');
        let mut tok: Vec<char> = vstd::slice::slice_to_vec(anu.as_slice());
        let t = &types[ai];
        if t.len() > 0 && t[0] == '=' {
            append_chars(&mut tok, t.as_slice());
        } else {
            tok.push(':');
            append_chars(&mut tok, t.as_slice());
        }
        proof {
            assert(tok@ =~= spec_col_token(activev[ai as int], typesv[ai as int], alv));
        }
        let ghost ppre = views_of(parts@);
        parts.push(tok);
        proof {
            assert(views_of(parts@) =~= ppre.push(col_toks[ai as int]));
            assert(views_of(parts@) =~= seq!["#"@] + consts_toks + col_toks.take(ai + 1 as int));
        }
        ai += 1;
    }
    proof {
        assert(col_toks.take(na as int) =~= col_toks);
    }
    if elided {
        let mut ptok: Vec<char> = Vec::new();
        ptok.push('+');
        let ghost p0 = ptok@;
        let nd = u64_chars(n as u64);
        append_chars(&mut ptok, nd.as_slice());
        let ghost ppre = views_of(parts@);
        proof {
            assert(p0 =~= seq!['+']);
        }
        parts.push(ptok);
        proof {
            assert(views_of(parts@) =~= ppre.push(seq!['+'] + spec_u64_chars(n as nat)));
        }
    }
    let header = join_chars(&parts, ' ');
    proof {
        if elided {
            assert(views_of(parts@) =~= seq!["#"@] + consts_toks + col_toks + seq![
                seq!['+'] + spec_u64_chars(items.len()),
            ]);
        } else {
            assert(views_of(parts@) =~= seq!["#"@] + consts_toks + col_toks + Seq::<
                Seq<char>,
            >::empty());
        }
    }
    let mut lines: Vec<Vec<char>> = Vec::new();
    if aliases.len() > 0 {
        let mut defs: Vec<Vec<char>> = Vec::new();
        let ghost defs0 = Seq::new(alv.len(), |i: int| seq!['%', alv[i].1, '='] + alv[i].0);
        let nal = aliases.len();
        let mut di: usize = 0;
        while di < nal
            invariant
                di <= nal,
                nal == aliases@.len(),
                alv == al_view(aliases@),
                defs@.len() == di,
                forall|j: int| 0 <= j < di ==> #[trigger] views_of(defs@)[j] == defs0[j],
            decreases nal - di,
        {
            let mut d: Vec<char> = Vec::new();
            d.push('%');
            d.push(aliases[di].1);
            d.push('=');
            let ghost d0 = d@;
            append_chars(&mut d, aliases[di].0.as_slice());
            proof {
                assert(d0 =~= seq!['%', alv[di as int].1, '=']);
            }
            let ghost dpre = views_of(defs@);
            defs.push(d);
            proof {
                assert forall|j: int|
                    0 <= j < di + 1 implies #[trigger] views_of(defs@)[j] == defs0[j] by {
                    if j < di {
                        assert(views_of(defs@)[j] == dpre[j]);
                    }
                }
            }
            di += 1;
        }
        proof {
            assert(views_of(defs@) =~= defs0);
        }
        let sdefs = sort_keys(defs);
        let aline = join_chars(&sdefs, ' ');
        lines.push(aline);
    }
    let ghost alias_lines: Seq<Seq<char>> = if alv.len() > 0 {
        seq![spec_join(spec_alias_defs(alv), ' ')]
    } else {
        Seq::<Seq<char>>::empty()
    };
    proof {
        assert(views_of(lines@) =~= alias_lines);
    }
    lines.push(header);
    proof {
        assert(views_of(lines@) =~= alias_lines + seq![header@]);
    }
    if !elided {
        let ghost row_lines = Seq::new(
            items.len(),
            |r: int| spec_join(spec_row_cells(rws[r], activev, typesv), ' '),
        );
        let mut ri: usize = 0;
        while ri < n
            invariant
                ri <= n,
                rows@.len() == n,
                rws == rows_view(rows@),
                activev == views_of(active@),
                typesv == views_of(types@),
                active@.len() == na,
                types@.len() == na,
                views_of(lines@) == alias_lines + seq![header@] + row_lines.take(ri as int),
            decreases n - ri,
        {
            let mut cells: Vec<Vec<char>> = Vec::new();
            proof {
                assert(views_of(cells@) =~= Seq::<Seq<char>>::empty());
                assert(activev.take(0) =~= Seq::<Seq<char>>::empty());
                assert(typesv.take(0) =~= Seq::<Seq<char>>::empty());
                assert(spec_row_cells(rws[ri as int], activev.take(0), typesv.take(0)) =~= Seq::<
                    Seq<char>,
                >::empty());
            }
            let mut ki: usize = 0;
            while ki < na
                invariant
                    ki <= na,
                    ri < n,
                    rows@.len() == n,
                    rws == rows_view(rows@),
                    activev == views_of(active@),
                    typesv == views_of(types@),
                    active@.len() == na,
                    types@.len() == na,
                    views_of(cells@) == spec_row_cells(
                        rws[ri as int],
                        activev.take(ki as int),
                        typesv.take(ki as int),
                    ),
                decreases na - ki,
            {
                proof {
                    assert(activev.take(ki + 1 as int).drop_last() =~= activev.take(ki as int));
                    assert(typesv.take(ki + 1 as int).drop_last() =~= typesv.take(ki as int));
                    assert(activev.take(ki + 1 as int).last() == activev[ki as int]);
                    assert(typesv.take(ki + 1 as int).last() == typesv[ki as int]);
                }
                if !chars_eq_str(types[ki].as_slice(), "i+") {
                    let v = lookup_row(&rows[ri], active[ki].as_slice());
                    let cell = serialize_chars(&v);
                    let ghost cpre = views_of(cells@);
                    cells.push(cell);
                    proof {
                        assert(views_of(cells@) =~= cpre.push(
                            spec_cell(rws[ri as int], activev[ki as int]),
                        ));
                    }
                }
                ki += 1;
            }
            proof {
                assert(activev.take(na as int) =~= activev);
                assert(typesv.take(na as int) =~= typesv);
            }
            let line = join_chars(&cells, ' ');
            let ghost lpre = views_of(lines@);
            lines.push(line);
            proof {
                assert(views_of(lines@) =~= lpre.push(row_lines[ri as int]));
                assert(views_of(lines@) =~= alias_lines + seq![header@] + row_lines.take(
                    ri + 1 as int,
                ));
            }
            ri += 1;
        }
        proof {
            assert(row_lines.take(n as int) =~= row_lines);
        }
    }
    let out = join_chars(&lines, '\n');
    Ok(chars_to_string(out.as_slice()))
}

/// Encodes a value tree as a document of the format: an array renders as a
/// tabular block, an object as an inline block, and any other top-level
/// value is a format error.
pub fn encode(value: &Value) -> (r: Result<String, ZoonError>)
    ensures
        match r {
            Ok(s) => (value@ matches ValueView::Array(items) && s@ == spec_encode_tabular(items))
                || (value@ matches ValueView::Object(es) && s@ == spec_inline_render(es)),
            Err(e) => !(value@ is Array) && !(value@ is Object) && e is InvalidFormat,
        },
{
    match value {
        Value::Array(_) => {
            let arr = match value {
                Value::Array(a) => a,
                _ => {
                    proof {
                        assert(false);
                    }
                    return Err(ZoonError::InvalidFormat(String::new()));
                },
            };
            match encode_tabular(arr) {
                Ok(s) => Ok(s),
                Err(e) => Err(e),
            }
        },
        Value::Object(es) => {
            match encode_inline(es) {
                Ok(s) => Ok(s),
                Err(e) => Err(e),
            }
        },
        _ => Err(
            ZoonError::InvalidFormat(String::from_str("top level must be object or array")),
        ),
    }
}

} // verus!
