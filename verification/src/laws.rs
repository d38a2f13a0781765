//! The format's general laws, stated over the codec's model and proved.
use vstd::prelude::*;

use crate::decode::spec_apply_consts;
use crate::decode::spec_apply_fields;
use crate::decode::spec_const_value;
use crate::decode::spec_decode_row;
use crate::decode::spec_explicit_rows;
use crate::decode::spec_parse_value;
use crate::decode::spec_sniff;
use crate::encode::spec_all_elided;
use crate::encode::spec_assign;
use crate::encode::spec_check_sequence;
use crate::encode::spec_col_type;
use crate::encode::spec_count_prefixes;
use crate::encode::spec_is_const;
use crate::encode::spec_is_id;
use crate::encode::spec_last_seg;
use crate::encode::spec_lookup_row;
use crate::encode::spec_row_cells;
use crate::encode::spec_score;
use crate::encode::spec_scored;
use crate::encode::spec_serialize;
use crate::encode::spec_sort_cands;
use crate::encode::spec_insert_cand;
use crate::encode::spec_split_keys;
use crate::paths::spec_find_key;
use crate::paths::spec_set_entry;
use crate::paths::spec_set_path;
use crate::paths::spec_unflatten;
use crate::text::is_digit;
use crate::text::spec_digits_val;
use crate::text::spec_i64_chars;
use crate::text::spec_parse_i64;
use crate::text::spec_replace;
use crate::text::spec_run_until;
use crate::text::spec_split_char;
use crate::text::spec_u64_chars;
use crate::value::ValueView;

verus! {

broadcast use vstd::seq::group_seq_axioms;

/// The null marker decodes to null under every type hint, with no
/// exception; as a header constant it likewise applies null, literal or
/// sniffed alike.
pub proof fn lemma_null_decodes_null(t: Seq<char>, lit: bool)
    ensures
        spec_parse_value("~"@, t) == ValueView::Null,
        spec_const_value("~"@, lit) == ValueView::Null,
{
}

/// A numeric column named `id` (case-insensitively) whose cells in row
/// order are exactly the decimal numbers `1..N` is inferred as the
/// auto-increment type.
pub proof fn lemma_id_column_inferred(
    rows: Seq<Seq<(Seq<char>, ValueView)>>,
    k: Seq<char>,
    arr_len: int,
)
    requires
        spec_is_id(k),
        crate::encode::spec_col_numeric(rows, k),
        spec_check_sequence(crate::encode::spec_col_values(rows, k)),
    ensures
        spec_col_type(rows, k, arr_len) == "i+"@,
{
}

/// A column of the auto-increment type contributes no cell to any rendered
/// row, and a table whose columns are all auto-increment renders no row
/// cells at all.
pub proof fn lemma_elided_cells(
    row: Seq<(Seq<char>, ValueView)>,
    active: Seq<Seq<char>>,
    types: Seq<Seq<char>>,
)
    requires
        active.len() == types.len(),
        spec_all_elided(types),
    ensures
        spec_row_cells(row, active, types) == Seq::<Seq<char>>::empty(),
    decreases active.len(),
{
    if active.len() > 0 {
        assert(forall|i: int|
            0 <= i < types.len() - 1 ==> #[trigger] types.drop_last()[i] == types[i]);
        lemma_elided_cells(row, active.drop_last(), types.drop_last());
    }
}

/// The value of a decimal rendering is the number itself.
pub proof fn lemma_u64_chars_val(m: nat)
    ensures
        spec_digits_val(spec_u64_chars(m)) == m,
        spec_u64_chars(m).len() >= 1,
        forall|i: int| 0 <= i < spec_u64_chars(m).len() ==> is_digit(#[trigger] spec_u64_chars(m)[i]),
        spec_u64_chars(m)[0] != '-' && spec_u64_chars(m)[0] != '+',
    decreases m,
{
    if m < 10 {
        let c = ((48 + m) as u8) as char;
        assert(c as u32 == 48 + m);
        let sc = seq![c];
        assert(spec_u64_chars(m) =~= sc);
        assert(sc.drop_last() =~= Seq::<char>::empty());
        assert(sc.last() == c);
        assert(spec_digits_val(Seq::<char>::empty()) == 0);
        assert(spec_digits_val(sc) == crate::text::digit_val(c));
        assert(crate::text::digit_val(c) == m);
        assert(is_digit(c));
        assert(c != '-' && c != '+') by {
            assert(('-' as u32) == 45 && ('+' as u32) == 43);
        }
    } else {
        lemma_u64_chars_val(m / 10);
        let c = spec_u64_chars(m);
        assert(c == spec_u64_chars(m / 10).push(((48 + m % 10) as u8) as char));
        assert(c.drop_last() =~= spec_u64_chars(m / 10));
        assert(c.last() == ((48 + m % 10) as u8) as char);
        assert(is_digit(c.last()));
        assert(spec_digits_val(c) == spec_digits_val(c.drop_last()) * 10 + crate::text::digit_val(
            c.last(),
        ));
        assert(c[0] == spec_u64_chars(m / 10)[0]);
        assert(forall|i: int| 0 <= i < c.len() - 1 ==> c[i] == #[trigger] spec_u64_chars(m / 10)[i]);
    }
}

/// Reading back the decimal rendering of a machine integer yields the same
/// number.
pub proof fn lemma_i64_chars_parse(n: int)
    requires
        -0x8000_0000_0000_0000 <= n <= 0x7fff_ffff_ffff_ffff,
    ensures
        spec_parse_i64(spec_i64_chars(n)) == Some(n),
{
    if n >= 0 {
        lemma_u64_chars_val(n as nat);
        let s = spec_i64_chars(n);
        assert(s == spec_u64_chars(n as nat));
        assert(s.len() > 0 && s[0] != '-' && s[0] != '+');
        assert(crate::text::all_digits(s));
    } else {
        lemma_u64_chars_val((-n) as nat);
        let s = spec_i64_chars(n);
        assert(s == seq!['-'] + spec_u64_chars((-n) as nat));
        assert(s[0] == '-');
        assert(s.drop_first() =~= spec_u64_chars((-n) as nat));
        assert(crate::text::all_digits(s.drop_first()));
    }
}

/// Round trip of an integer cell: serializing an integer and sniffing the
/// text yields the integer again.
pub proof fn lemma_int_roundtrip(n: int)
    requires
        -0x8000_0000_0000_0000 <= n <= 0x7fff_ffff_ffff_ffff,
    ensures
        spec_sniff(spec_serialize(ValueView::Int(n))) == ValueView::Int(n),
{
    lemma_i64_chars_parse(n);
    let s = spec_i64_chars(n);
    reveal_strlit("y");
    reveal_strlit("n");
    if n >= 0 {
        lemma_u64_chars_val(n as nat);
        assert(is_digit(s[0]));
        assert(s != "y"@ && s != "n"@) by {
            assert(('y' as u32) > 57 && ('n' as u32) > 57);
        }
    } else {
        assert(s[0] == '-');
        assert(s != "y"@ && s != "n"@);
    }
}

/// Round trip of a boolean cell: a boolean renders as `1`/`0` in a row and
/// reads back under the `b` hint as the same boolean.
pub proof fn lemma_bool_cell_roundtrip(b: bool)
    ensures
        spec_parse_value(spec_serialize(ValueView::Bool(b)), "b"@) == ValueView::Bool(b),
{
    reveal_strlit("1");
    reveal_strlit("0");
    reveal_strlit("~");
    reveal_strlit("i");
    reveal_strlit("i+");
    reveal_strlit("b");
    reveal_strlit("y");
    reveal_strlit("true");
    assert("b"@ != "i"@ && "b"@ != "i+"@) by {
        assert("b"@ =~= seq!['b']);
        assert("i"@ =~= seq!['i']);
        assert("i+"@ =~= seq!['i', '+']);
        assert(seq!['b'][0] == 'b' && seq!['i'][0] == 'i' && seq!['i', '+'].len() == 2);
    }
    let s = spec_serialize(ValueView::Bool(b));
    assert(s != "~"@) by {
        assert("1"@ =~= seq!['1']);
        assert("0"@ =~= seq!['0']);
        assert("~"@ =~= seq!['~']);
    }
    if b {
        assert(s == "1"@);
    } else {
        assert(s == "0"@);
        assert("0"@ != "1"@ && "0"@ != "y"@ && "0"@ != "true"@) by {
            assert("0"@ =~= seq!['0']);
            assert("1"@ =~= seq!['1']);
            assert("y"@ =~= seq!['y']);
            assert("true"@.len() == 4);
        }
    }
}

/// Unescaping undoes escaping on a string without literal underscores.
pub proof fn lemma_escape_roundtrip(s: Seq<char>)
    requires
        forall|i: int| 0 <= i < s.len() ==> s[i] != '_',
    ensures
        spec_replace(spec_replace(s, ' ', '_'), '_', ' ') == s,
    decreases s.len(),
{
    crate::text::lemma_replace(s, ' ', '_');
    crate::text::lemma_replace(spec_replace(s, ' ', '_'), '_', ' ');
    assert(spec_replace(spec_replace(s, ' ', '_'), '_', ' ') =~= s);
}

/// Round trip of a string cell: a string with no literal underscore, and
/// whose escaped form reads as no other scalar, sniffs back to itself.
pub proof fn lemma_string_roundtrip(s: Seq<char>)
    requires
        forall|i: int| 0 <= i < s.len() ==> s[i] != '_',
        spec_replace(s, ' ', '_') != "y"@,
        spec_replace(s, ' ', '_') != "n"@,
        spec_replace(s, ' ', '_') != "true"@,
        spec_replace(s, ' ', '_') != "false"@,
        spec_parse_i64(spec_replace(s, ' ', '_')) is None,
    ensures
        spec_sniff(spec_serialize(ValueView::Str(s))) == ValueView::Str(s),
{
    lemma_escape_roundtrip(s);
}

/// A column whose serialized cell is identical and non-null across at
/// least two rows is hoisted into the header constants and removed from the
/// active columns.
pub proof fn lemma_constant_hoisted(
    rows: Seq<Seq<(Seq<char>, ValueView)>>,
    keys: Seq<Seq<char>>,
    k: Seq<char>,
)
    requires
        keys.contains(k),
        spec_is_const(rows, k),
    ensures
        spec_split_keys(rows, keys).0.contains((k, spec_lookup_row(rows[0], k))),
        !spec_split_keys(rows, keys).1.contains(k),
    decreases keys.len(),
{
    if keys.len() > 0 {
        let rec = spec_split_keys(rows, keys.drop_last());
        if keys.last() == k {
            let out = spec_split_keys(rows, keys).0;
            assert(out == rec.0.push((k, spec_lookup_row(rows[0], k))));
            assert(out[out.len() - 1] == (k, spec_lookup_row(rows[0], k)));
            assert(out.contains((k, spec_lookup_row(rows[0], k))));
            lemma_split_keys_no_const(rows, keys.drop_last(), k);
            assert forall|j: int|
                0 <= j < spec_split_keys(rows, keys).1.len() implies #[trigger] spec_split_keys(
                rows,
                keys,
            ).1[j] != k by {
                assert(spec_split_keys(rows, keys).1 == rec.1);
            }
        } else {
            if keys.drop_last().contains(k) {
                lemma_constant_hoisted(rows, keys.drop_last(), k);
                if spec_is_const(rows, keys.last()) {
                    assert(spec_split_keys(rows, keys).1 == rec.1);
                    let w = choose|w: int|
                        0 <= w < rec.0.len() && rec.0[w] == (k, spec_lookup_row(rows[0], k));
                    assert(spec_split_keys(rows, keys).0[w] == rec.0[w]);
                    assert(spec_split_keys(rows, keys).0.contains(
                        (k, spec_lookup_row(rows[0], k)),
                    ));
                } else {
                    assert(spec_split_keys(rows, keys).0 == rec.0);
                    assert forall|j: int|
                        0 <= j < spec_split_keys(rows, keys).1.len() implies #[trigger] spec_split_keys(
                        rows,
                        keys,
                    ).1[j] != k by {
                        if j < rec.1.len() {
                            assert(rec.1[j] != k);
                        }
                    }
                    let w = choose|w: int| 0 <= w < rec.0.len() && rec.0[w] == (
                        k,
                        spec_lookup_row(rows[0], k),
                    );
                    assert(spec_split_keys(rows, keys).0[w] == rec.0[w]);
                }
            } else {
                let w = choose|w: int| 0 <= w < keys.len() && keys[w] == k;
                assert(keys.drop_last()[w] == k);
            }
        }
    }
}

/// A constant column never lands among the active keys.
pub proof fn lemma_split_keys_no_const(
    rows: Seq<Seq<(Seq<char>, ValueView)>>,
    keys: Seq<Seq<char>>,
    k: Seq<char>,
)
    requires
        spec_is_const(rows, k),
    ensures
        !spec_split_keys(rows, keys).1.contains(k),
    decreases keys.len(),
{
    if keys.len() > 0 {
        lemma_split_keys_no_const(rows, keys.drop_last(), k);
        let rec = spec_split_keys(rows, keys.drop_last());
        if !spec_is_const(rows, keys.last()) {
            assert forall|j: int|
                0 <= j < spec_split_keys(rows, keys).1.len() implies #[trigger] spec_split_keys(
                rows,
                keys,
            ).1[j] != k by {
                if j < rec.1.len() {
                    assert(rec.1[j] != k);
                }
            }
        }
    }
}

/// Applying the header constants binds each distinct constant name to its
/// value in the row's flat map; the decoder then reapplies it to every row
/// it builds.
pub proof fn lemma_constant_reapplied(
    cs: Seq<(Seq<char>, Seq<char>, bool)>,
    j: int,
)
    requires
        0 <= j < cs.len(),
        forall|a: int, b: int| 0 <= a < b < cs.len() ==> (#[trigger] cs[a]).0 != (#[trigger] cs[b]).0,
    ensures
        spec_lookup_row(spec_apply_consts(Seq::empty(), cs), cs[j].0) == spec_const_value(
            cs[j].1,
            cs[j].2,
        ),
    decreases cs.len(),
{
    let flat = spec_apply_consts(Seq::empty(), cs);
    let pre = spec_apply_consts(Seq::empty(), cs.drop_last());
    if j == cs.len() - 1 {
        lemma_lookup_set_entry_same(pre, cs[j].0, spec_const_value(cs[j].1, cs[j].2));
    } else {
        assert(cs.drop_last()[j] == cs[j]);
        lemma_constant_reapplied(cs.drop_last(), j);
        assert(cs.last().0 != cs[j].0);
        lemma_lookup_set_entry_other(
            pre,
            cs.last().0,
            spec_const_value(cs.last().1, cs.last().2),
            cs[j].0,
        );
    }
}

/// Binding a key makes it readable at that value.
pub proof fn lemma_lookup_set_entry_same(
    es: Seq<(Seq<char>, ValueView)>,
    k: Seq<char>,
    v: ValueView,
)
    ensures
        spec_lookup_row(spec_set_entry(es, k, v), k) == v,
    decreases es.len(),
{
    crate::paths::lemma_find_key(spec_set_entry(es, k, v), k);
    if es.len() > 0 && es[0].0 != k {
        lemma_lookup_set_entry_same(es.drop_first(), k, v);
        let out = spec_set_entry(es, k, v);
        assert(out[0] == es[0]);
        assert(out.drop_first() =~= spec_set_entry(es.drop_first(), k, v));
        crate::paths::lemma_find_key(spec_set_entry(es.drop_first(), k, v), k);
    }
}

/// Binding one key leaves every other key's value unchanged.
pub proof fn lemma_lookup_set_entry_other(
    es: Seq<(Seq<char>, ValueView)>,
    k: Seq<char>,
    v: ValueView,
    other: Seq<char>,
)
    requires
        other != k,
    ensures
        spec_lookup_row(spec_set_entry(es, k, v), other) == spec_lookup_row(es, other),
    decreases es.len(),
{
    if es.len() == 0 {
        let out = spec_set_entry(es, k, v);
        assert(out == seq![(k, v)]);
        assert(out[0].0 == k);
        assert(out.drop_first() =~= Seq::<(Seq<char>, ValueView)>::empty());
        assert(spec_find_key(out.drop_first(), other) is None);
        assert(spec_find_key(out, other) is None);
    } else if es[0].0 == k {
        let out = spec_set_entry(es, k, v);
        assert(out =~= seq![(k, v)] + es.drop_first());
        assert(out[0] == (k, v));
        assert(out.drop_first() =~= es.drop_first());
        proof_find_bounds(es.drop_first(), other);
        match spec_find_key(es.drop_first(), other) {
            Some(i) => {
                assert(out[i + 1] == es.drop_first()[i]);
                assert(es[i + 1] == es.drop_first()[i]);
            },
            None => {},
        }
        assert(spec_find_key(out, other) == (match spec_find_key(es.drop_first(), other) {
            Some(i) => Some(i + 1),
            None => None,
        }));
        assert(spec_find_key(es, other) == (match spec_find_key(es.drop_first(), other) {
            Some(i) => Some(i + 1),
            None => None,
        }));
        assert(spec_lookup_row(out, other) == spec_lookup_row(es, other));
    } else {
        lemma_lookup_set_entry_other(es.drop_first(), k, v, other);
        let out = spec_set_entry(es, k, v);
        assert(out[0] == es[0]);
        assert(out.drop_first() =~= spec_set_entry(es.drop_first(), k, v));
        if es[0].0 == other {
            assert(spec_find_key(out, other) == Some(0int));
            assert(spec_find_key(es, other) == Some(0int));
            assert(spec_lookup_row(out, other) == spec_lookup_row(es, other));
        } else {
            proof_find_bounds(es.drop_first(), other);
            proof_find_bounds(spec_set_entry(es.drop_first(), k, v), other);
            match spec_find_key(es.drop_first(), other) {
                Some(i) => {
                    assert(es[i + 1] == es.drop_first()[i]);
                },
                None => {},
            }
            match spec_find_key(spec_set_entry(es.drop_first(), k, v), other) {
                Some(i) => {
                    assert(out[i + 1] == spec_set_entry(es.drop_first(), k, v)[i]);
                },
                None => {},
            }
            assert(spec_find_key(out, other) == (match spec_find_key(
                spec_set_entry(es.drop_first(), k, v),
                other,
            ) {
                Some(i) => Some(i + 1),
                None => None,
            }));
            assert(spec_find_key(es, other) == (match spec_find_key(es.drop_first(), other) {
                Some(i) => Some(i + 1),
                None => None,
            }));
            assert(spec_lookup_row(out, other) == spec_lookup_row(es, other));
        }
    }
}

proof fn proof_find_bounds(es: Seq<(Seq<char>, ValueView)>, k: Seq<char>)
    ensures
        spec_find_key(es, k) matches Some(i) ==> 0 <= i < es.len(),
{
    crate::paths::lemma_find_key(es, k);
}

/// A candidate table in which no prefix scores positively yields no alias,
/// and one holding a positively scored prefix yields a non-empty scored
/// candidate list.
pub proof fn lemma_alias_scores(cnt: Seq<(Seq<char>, int)>)
    ensures
        (forall|i: int|
            0 <= i < cnt.len() ==> spec_score((#[trigger] cnt[i]).0.len() as int, cnt[i].1)
                <= 0) ==> spec_scored(cnt) == Seq::<(Seq<char>, int)>::empty(),
        (exists|i: int|
            0 <= i < cnt.len() && spec_score((#[trigger] cnt[i]).0.len() as int, cnt[i].1) > 0)
            ==> spec_scored(cnt).len() > 0,
    decreases cnt.len(),
{
    if cnt.len() > 0 {
        lemma_alias_scores(cnt.drop_last());
        assert(forall|i: int| 0 <= i < cnt.len() - 1 ==> #[trigger] cnt.drop_last()[i] == cnt[i]);
        if exists|i: int|
            0 <= i < cnt.len() && spec_score((#[trigger] cnt[i]).0.len() as int, cnt[i].1) > 0 {
            let w = choose|i: int|
                0 <= i < cnt.len() && spec_score((#[trigger] cnt[i]).0.len() as int, cnt[i].1) > 0;
            if w < cnt.len() - 1 {
                assert(cnt.drop_last()[w] == cnt[w]);
            }
        }
    }
}

/// With no candidates, no alias is assigned.
pub proof fn lemma_assign_empty()
    ensures
        spec_assign(Seq::<(Seq<char>, int)>::empty()).0 == Seq::<(Seq<char>, char)>::empty(),
{
}

/// Sorting keeps every candidate.
pub proof fn lemma_sort_cands_len(s: Seq<(Seq<char>, int)>)
    ensures
        spec_sort_cands(s).len() == s.len(),
    decreases s.len(),
{
    if s.len() > 0 {
        lemma_sort_cands_len(s.drop_last());
        lemma_insert_cand_len(spec_sort_cands(s.drop_last()), s.last());
    }
}

/// Insertion adds exactly one candidate.
pub proof fn lemma_insert_cand_len(s: Seq<(Seq<char>, int)>, x: (Seq<char>, int))
    ensures
        spec_insert_cand(s, x).len() == s.len() + 1,
    decreases s.len(),
{
    if s.len() > 0 && !crate::encode::spec_cand_le(x, s[0]) {
        lemma_insert_cand_len(s.drop_first(), x);
    }
}

/// Alias assignment never unassigns, and the first candidate with a
/// non-empty last segment always receives a token while the table is empty.
pub proof fn lemma_assign_monotone(cands: Seq<(Seq<char>, int)>, i: int)
    requires
        0 <= i <= cands.len(),
    ensures
        spec_assign(cands).0.len() >= spec_assign(cands.take(i)).0.len(),
    decreases cands.len() - i,
{
    if i < cands.len() {
        assert(cands.take(i + 1).drop_last() =~= cands.take(i));
        assert(cands.take(i + 1).last() == cands[i]);
        assert(spec_assign(cands.take(i + 1)).0.len() >= spec_assign(cands.take(i)).0.len());
        lemma_assign_monotone(cands, i + 1);
    } else {
        assert(cands.take(i) =~= cands);
    }
}

/// Given any candidate list whose first prefix has a non-empty last
/// segment, at least one alias is assigned.
pub proof fn lemma_first_alias_assigned(cands: Seq<(Seq<char>, int)>)
    requires
        cands.len() > 0,
        spec_last_seg(cands[0].0).len() > 0,
    ensures
        spec_assign(cands).0.len() >= 1,
{
    assert(cands.take(1).drop_last() =~= Seq::<(Seq<char>, int)>::empty());
    assert(cands.take(1).last() == cands[0]);
    let st0 = spec_assign(Seq::<(Seq<char>, int)>::empty());
    assert(st0.0.len() == 0 && st0.1.len() == 0 && st0.2 == 0);
    let seg = spec_last_seg(cands[0].0);
    let f = crate::encode::spec_fallback(st0.1, crate::encode::spec_lower(seg[0]), st0.2);
    assert(!st0.1.contains(crate::encode::spec_lower(seg[0])));
    assert(f == (crate::encode::spec_lower(seg[0]), 0int));
    assert(spec_assign(cands.take(1)).0.len() == 1);
    lemma_assign_monotone(cands, 1);
}

/// The rows decoded from an explicit count, for a header holding one
/// auto-increment column and nothing else, are objects carrying exactly the
/// regenerated values `1..N` in order.
pub proof fn lemma_explicit_rows_regenerate(k: Seq<char>, n: int)
    requires
        0 <= n < 0x7fff_ffff_ffff_ffff,
        spec_run_until(k, '.') == k.len(),
    ensures
        ({
            let fs = seq![(k, "i+"@)];
            let r = spec_explicit_rows(Seq::empty(), fs, n, 0);
            &&& r is Ok
            &&& r->Ok_0.0.len() == n
            &&& r->Ok_0.1 == n
            &&& forall|i: int|
                0 <= i < n ==> #[trigger] r->Ok_0.0[i] == ValueView::Object(
                    seq![(k, ValueView::Int(i + 1))],
                )
        }),
    decreases n,
{
    let fs = seq![(k, "i+"@)];
    if n == 0 {
    } else {
        lemma_explicit_rows_regenerate(k, n - 1);
        lemma_one_auto_row(k, n - 1);
        let prev = spec_explicit_rows(Seq::empty(), fs, n - 1, 0);
        let r = spec_explicit_rows(Seq::empty(), fs, n, 0);
        assert(r->Ok_0.0 == prev->Ok_0.0.push(ValueView::Object(seq![(k, ValueView::Int(n))])));
        assert(forall|i: int|
            0 <= i < n - 1 ==> #[trigger] r->Ok_0.0[i] == prev->Ok_0.0[i]);
    }
}

/// One row decoded from a single auto-increment field: the counter advances
/// by one and the row holds exactly that value.
pub proof fn lemma_one_auto_row(k: Seq<char>, c: int)
    requires
        0 <= c < 0x7fff_ffff_ffff_ffff,
        spec_run_until(k, '.') == k.len(),
    ensures
        spec_decode_row(Seq::empty(), seq![(k, "i+"@)], Seq::empty(), c) == Ok::<_, ()>((
            ValueView::Object(seq![(k, ValueView::Int(c + 1))]),
            c + 1,
        )),
{
    let fs = seq![(k, "i+"@)];
    assert(fs.drop_last() =~= Seq::<(Seq<char>, Seq<char>)>::empty());
    assert(fs.last() == (k, "i+"@));
    let flat0 = spec_apply_consts(Seq::empty(), Seq::empty());
    assert(flat0 =~= Seq::<(Seq<char>, ValueView)>::empty());
    let r = spec_apply_fields(flat0, fs, Seq::empty(), 0, c);
    assert(spec_apply_fields(flat0, fs.drop_last(), Seq::empty(), 0, c) == (flat0, 0int, c));
    assert(crate::decode::spec_bump(c) == c + 1);
    assert(r.0 == spec_set_entry(flat0, k, ValueView::Int(c + 1)));
    assert(spec_set_entry(flat0, k, ValueView::Int(c + 1)) =~= seq![(k, ValueView::Int(c + 1))]);
    assert(r.1 == 0 && r.2 == c + 1);
    assert(r.0 =~= seq![(k, ValueView::Int(c + 1))]);
    let flat = seq![(k, ValueView::Int(c + 1))];
    assert(flat.drop_last() =~= Seq::<(Seq<char>, ValueView)>::empty());
    assert(flat.last() == (k, ValueView::Int(c + 1)));
    assert(spec_run_until(k, '.') == k.len());
    assert(spec_split_char(k, '.') == seq![k]);
    let parts = spec_split_char(k, '.');
    assert(parts.len() == 1 && parts[0] == k);
    assert(spec_set_path(Seq::empty(), parts, ValueView::Int(c + 1)) == Ok::<_, ()>(
        spec_set_entry(Seq::empty(), k, ValueView::Int(c + 1)),
    ));
    assert(spec_set_entry(Seq::empty(), k, ValueView::Int(c + 1)) =~= seq![
        (k, ValueView::Int(c + 1)),
    ]);
    assert(spec_unflatten(Seq::<(Seq<char>, ValueView)>::empty()) == Ok::<_, ()>(Seq::<
        (Seq<char>, ValueView),
    >::empty()));
    assert(spec_unflatten(flat) == Ok::<_, ()>(seq![(k, ValueView::Int(c + 1))]));
}


/// A leaf value for flattening: anything but an object.
pub open spec fn is_leaf(v: ValueView) -> bool {
    !(v is Object)
}

/// A flat record: every key free of dots, no key repeated, every value a
/// leaf.
pub open spec fn flat_record(es: Seq<(Seq<char>, ValueView)>) -> bool {
    &&& forall|i: int|
        0 <= i < es.len() ==> spec_run_until((#[trigger] es[i]).0, '.') == es[i].0.len()
    &&& forall|i: int, j: int| 0 <= i < j < es.len() ==> (#[trigger] es[i]).0 != (#[trigger] es[j]).0
    &&& forall|i: int| 0 <= i < es.len() ==> is_leaf((#[trigger] es[i]).1)
}

/// Binding a fresh key appends it.
pub proof fn lemma_set_entry_fresh(es: Seq<(Seq<char>, ValueView)>, k: Seq<char>, v: ValueView)
    requires
        forall|i: int| 0 <= i < es.len() ==> (#[trigger] es[i]).0 != k,
    ensures
        spec_set_entry(es, k, v) == es.push((k, v)),
    decreases es.len(),
{
    if es.len() > 0 {
        assert(forall|i: int|
            0 <= i < es.drop_first().len() ==> (#[trigger] es.drop_first()[i]).0 != k);
        lemma_set_entry_fresh(es.drop_first(), k, v);
        assert(spec_set_entry(es, k, v) =~= es.push((k, v)));
    } else {
        assert(spec_set_entry(es, k, v) =~= es.push((k, v)));
    }
}

/// Flattening a flat record at the empty prefix appends its entries as
/// they stand.
pub proof fn lemma_flatten_flat(acc: Seq<(Seq<char>, ValueView)>, es: Seq<(Seq<char>, ValueView)>)
    requires
        forall|i: int| 0 <= i < es.len() ==> is_leaf((#[trigger] es[i]).1),
        forall|i: int|
            0 <= i < es.len() ==> forall|j: int|
                0 <= j < acc.len() ==> (#[trigger] acc[j]).0 != (#[trigger] es[i]).0,
        forall|i: int, j: int| 0 <= i < j < es.len() ==> (#[trigger] es[i]).0 != (#[trigger] es[j]).0,
    ensures
        crate::encode::spec_flatten_entries(acc, Seq::empty(), es) == acc + es,
    decreases es.len(),
{
    if es.len() == 0 {
        assert(acc + es =~= acc);
    } else {
        let k = es[0].0;
        let v = es[0].1;
        assert(crate::encode::spec_child_key(Seq::empty(), k) == k);
        assert(crate::encode::spec_flatten_into(acc, k, v) == spec_set_entry(acc, k, v));
        assert(forall|j: int| 0 <= j < acc.len() ==> (#[trigger] acc[j]).0 != k);
        lemma_set_entry_fresh(acc, k, v);
        let acc2 = acc.push((k, v));
        assert(forall|i: int|
            0 <= i < es.drop_first().len() ==> is_leaf((#[trigger] es.drop_first()[i]).1));
        assert forall|i: int, j: int|
            0 <= i < j < es.drop_first().len() implies (#[trigger] es.drop_first()[i]).0 != (
        #[trigger] es.drop_first()[j]).0 by {
            assert(es.drop_first()[i] == es[i + 1]);
            assert(es.drop_first()[j] == es[j + 1]);
        }
        assert forall|i: int|
            0 <= i < es.drop_first().len() implies forall|j: int|
                0 <= j < acc2.len() ==> (#[trigger] acc2[j]).0 != (#[trigger] es.drop_first()[
        i]).0 by {
            assert(es.drop_first()[i] == es[i + 1]);
            assert forall|j: int|
                0 <= j < acc2.len() implies (#[trigger] acc2[j]).0 != es[i + 1].0 by {
                if j < acc.len() {
                    assert(acc2[j] == acc[j]);
                } else {
                    assert(acc2[j] == (k, v));
                }
            }
        }
        lemma_flatten_flat(acc2, es.drop_first());
        assert(acc2 + es.drop_first() =~= acc + es);
    }
}

/// Unflattening a flat record reproduces its entries as they stand.
pub proof fn lemma_unflatten_flat(es: Seq<(Seq<char>, ValueView)>)
    requires
        flat_record(es),
    ensures
        spec_unflatten(es) == Ok::<Seq<(Seq<char>, ValueView)>, ()>(es),
    decreases es.len(),
{
    if es.len() == 0 {
        assert(spec_unflatten(es) == Ok::<Seq<(Seq<char>, ValueView)>, ()>(Seq::empty()));
        assert(es =~= Seq::<(Seq<char>, ValueView)>::empty());
    } else {
        let front = es.drop_last();
        assert forall|i: int|
            0 <= i < front.len() implies spec_run_until((#[trigger] front[i]).0, '.')
            == front[i].0.len() && is_leaf(front[i].1) by {
            assert(front[i] == es[i]);
        }
        assert forall|i: int, j: int|
            0 <= i < j < front.len() implies (#[trigger] front[i]).0 != (#[trigger] front[j]).0 by {
            assert(front[i] == es[i] && front[j] == es[j]);
        }
        lemma_unflatten_flat(front);
        let k = es.last().0;
        let v = es.last().1;
        assert(spec_run_until(k, '.') == k.len());
        assert(spec_split_char(k, '.') == seq![k]);
        assert(spec_set_path(front, seq![k], v) == Ok::<_, ()>(spec_set_entry(front, k, v)));
        assert forall|i: int| 0 <= i < front.len() implies (#[trigger] front[i]).0 != k by {
            assert(front[i] == es[i]);
            assert(es.last() == es[es.len() - 1]);
        }
        lemma_set_entry_fresh(front, k, v);
        assert(front.push((k, v)) =~= es);
    }
}

/// Round-trip law for one flat record: a top-level object with dot-free,
/// distinct keys and leaf values flattens and unflattens back to itself,
/// exactly.
pub proof fn lemma_flat_object_roundtrip(es: Seq<(Seq<char>, ValueView)>)
    requires
        flat_record(es),
    ensures
        spec_unflatten(
            crate::encode::spec_flatten_into(Seq::empty(), Seq::empty(), ValueView::Object(es)),
        ) == Ok::<Seq<(Seq<char>, ValueView)>, ()>(es),
{
    let acc = Seq::<(Seq<char>, ValueView)>::empty();
    lemma_flatten_flat(acc, es);
    assert(acc + es =~= es);
    lemma_unflatten_flat(es);
}


/// Inserting keeps only the inserted candidate and the old ones.
pub proof fn lemma_insert_cand_elems(s: Seq<(Seq<char>, int)>, x: (Seq<char>, int))
    ensures
        forall|e: (Seq<char>, int)|
            spec_insert_cand(s, x).contains(e) ==> s.contains(e) || e == x,
    decreases s.len(),
{
    if s.len() == 0 {
        assert forall|e: (Seq<char>, int)|
            spec_insert_cand(s, x).contains(e) implies s.contains(e) || e == x by {
            assert(spec_insert_cand(s, x) == seq![x]);
            let w = choose|w: int|
                0 <= w < spec_insert_cand(s, x).len() && spec_insert_cand(s, x)[w] == e;
            assert(seq![x][w] == x);
        }
    } else if crate::encode::spec_cand_le(x, s[0]) {
        assert forall|e: (Seq<char>, int)|
            spec_insert_cand(s, x).contains(e) implies s.contains(e) || e == x by {
            let out = spec_insert_cand(s, x);
            assert(out == seq![x] + s);
            let w = choose|w: int| 0 <= w < out.len() && out[w] == e;
            if w == 0 {
            } else {
                assert(out[w] == s[w - 1]);
            }
        }
    } else {
        lemma_insert_cand_elems(s.drop_first(), x);
        assert forall|e: (Seq<char>, int)|
            spec_insert_cand(s, x).contains(e) implies s.contains(e) || e == x by {
            let out = spec_insert_cand(s, x);
            assert(out == seq![s[0]] + spec_insert_cand(s.drop_first(), x));
            let w = choose|w: int| 0 <= w < out.len() && out[w] == e;
            if w == 0 {
                assert(s[0] == e);
            } else {
                assert(out[w] == spec_insert_cand(s.drop_first(), x)[w - 1]);
                assert(spec_insert_cand(s.drop_first(), x).contains(e));
                if s.drop_first().contains(e) {
                    let u = choose|u: int|
                        0 <= u < s.drop_first().len() && s.drop_first()[u] == e;
                    assert(s[u + 1] == e);
                }
            }
        }
    }
}

/// Sorting keeps exactly the candidates it was given.
pub proof fn lemma_sort_cands_elems(s: Seq<(Seq<char>, int)>)
    ensures
        forall|e: (Seq<char>, int)| spec_sort_cands(s).contains(e) ==> s.contains(e),
    decreases s.len(),
{
    if s.len() > 0 {
        lemma_sort_cands_elems(s.drop_last());
        lemma_insert_cand_elems(spec_sort_cands(s.drop_last()), s.last());
        assert forall|e: (Seq<char>, int)| spec_sort_cands(s).contains(e) implies s.contains(
            e,
        ) by {
            if spec_sort_cands(s.drop_last()).contains(e) {
                assert(s.drop_last().contains(e));
                let u = choose|u: int| 0 <= u < s.drop_last().len() && s.drop_last()[u] == e;
                assert(s[u] == e);
            } else if e == s.last() {
                assert(s[s.len() - 1] == e);
            }
        }
    }
}

/// Every scored candidate's prefix appears in the count table.
pub proof fn lemma_scored_elems(cnt: Seq<(Seq<char>, int)>)
    ensures
        forall|e: (Seq<char>, int)|
            spec_scored(cnt).contains(e) ==> exists|i: int|
                0 <= i < cnt.len() && (#[trigger] cnt[i]).0 == e.0,
    decreases cnt.len(),
{
    if cnt.len() > 0 {
        lemma_scored_elems(cnt.drop_last());
        assert forall|e: (Seq<char>, int)|
            spec_scored(cnt).contains(e) implies exists|i: int|
            0 <= i < cnt.len() && (#[trigger] cnt[i]).0 == e.0 by {
            let out = spec_scored(cnt);
            let rec = spec_scored(cnt.drop_last());
            let w = choose|w: int| 0 <= w < out.len() && out[w] == e;
            if w < rec.len() {
                assert(rec[w] == out[w]);
                assert(rec.contains(e));
                let i = choose|i: int| 0 <= i < cnt.drop_last().len() && (#[trigger] cnt.drop_last()[i]).0 == e.0;
                assert(cnt[i].0 == e.0);
            } else {
                assert(out[w] == (cnt.last().0, spec_score(cnt.last().0.len() as int, cnt.last().1)));
                assert(cnt[cnt.len() - 1].0 == e.0);
            }
        }
    }
}

/// The alias-detection law: if no prefix of the active keys scores
/// positively, no alias is assigned and no alias line is emitted; if some
/// prefix scores positively and every counted prefix ends in a non-empty
/// segment, at least one alias is assigned.
pub proof fn lemma_alias_detection(keys: Seq<Seq<char>>)
    ensures
        (forall|i: int|
            0 <= i < spec_count_prefixes(keys).len() ==> spec_score(
                (#[trigger] spec_count_prefixes(keys)[i]).0.len() as int,
                spec_count_prefixes(keys)[i].1,
            ) <= 0) ==> crate::encode::spec_detect_aliases(keys) == Seq::<(Seq<char>, char)>::empty(),
        ((exists|i: int|
            0 <= i < spec_count_prefixes(keys).len() && spec_score(
                (#[trigger] spec_count_prefixes(keys)[i]).0.len() as int,
                spec_count_prefixes(keys)[i].1,
            ) > 0) && (forall|i: int|
            0 <= i < spec_count_prefixes(keys).len() ==> spec_last_seg(
                (#[trigger] spec_count_prefixes(keys)[i]).0,
            ).len() > 0)) ==> crate::encode::spec_detect_aliases(keys).len() >= 1,
{
    let cnt = spec_count_prefixes(keys);
    let sc = spec_scored(cnt);
    let sorted = spec_sort_cands(sc);
    lemma_alias_scores(cnt);
    lemma_sort_cands_len(sc);
    if forall|i: int|
        0 <= i < cnt.len() ==> spec_score((#[trigger] cnt[i]).0.len() as int, cnt[i].1) <= 0 {
        assert(sc =~= Seq::<(Seq<char>, int)>::empty());
        assert(sorted =~= Seq::<(Seq<char>, int)>::empty());
        lemma_assign_empty();
    }
    if (exists|i: int|
        0 <= i < cnt.len() && spec_score((#[trigger] cnt[i]).0.len() as int, cnt[i].1) > 0) && (
    forall|i: int| 0 <= i < cnt.len() ==> spec_last_seg((#[trigger] cnt[i]).0).len() > 0) {
        assert(sc.len() > 0);
        assert(sorted.len() > 0);
        assert(sorted.contains(sorted[0]));
        lemma_sort_cands_elems(sc);
        assert(sc.contains(sorted[0]));
        lemma_scored_elems(cnt);
        let i = choose|i: int| 0 <= i < cnt.len() && (#[trigger] cnt[i]).0 == sorted[0].0;
        assert(spec_last_seg(sorted[0].0).len() > 0);
        lemma_first_alias_assigned(sorted);
    }
}


/// Binding a dot-free key with a leaf value keeps a flat map a flat record.
pub proof fn lemma_set_entry_wf(es: Seq<(Seq<char>, ValueView)>, k: Seq<char>, v: ValueView)
    requires
        flat_record(es),
        spec_run_until(k, '.') == k.len(),
        is_leaf(v),
    ensures
        flat_record(spec_set_entry(es, k, v)),
{
    crate::paths::lemma_find_key(es, k);
    crate::paths::lemma_set_entry(es, k, v);
    match spec_find_key(es, k) {
        Some(i) => {
            let out = es.update(i, (k, v));
            assert(es[i].0 == k);
            assert forall|a: int, b: int|
                0 <= a < b < out.len() implies (#[trigger] out[a]).0 != (#[trigger] out[b]).0 by {
                assert(out[a].0 == es[a].0 && out[b].0 == es[b].0);
            }
            assert forall|a: int|
                0 <= a < out.len() implies spec_run_until((#[trigger] out[a]).0, '.')
                == out[a].0.len() && is_leaf(out[a].1) by {
                if a != i {
                    assert(out[a] == es[a]);
                }
            }
        },
        None => {
            let out = es.push((k, v));
            assert forall|a: int, b: int|
                0 <= a < b < out.len() implies (#[trigger] out[a]).0 != (#[trigger] out[b]).0 by {
                if b < es.len() {
                    assert(out[a] == es[a] && out[b] == es[b]);
                } else {
                    assert(out[a] == es[a] && out[b] == (k, v));
                }
            }
            assert forall|a: int|
                0 <= a < out.len() implies spec_run_until((#[trigger] out[a]).0, '.')
                == out[a].0.len() && is_leaf(out[a].1) by {
                if a < es.len() {
                    assert(out[a] == es[a]);
                }
            }
        },
    }
}

/// Applying constants with dot-free names builds a flat record.
pub proof fn lemma_apply_consts_wf(cs: Seq<(Seq<char>, Seq<char>, bool)>)
    requires
        forall|i: int|
            0 <= i < cs.len() ==> spec_run_until((#[trigger] cs[i]).0, '.') == cs[i].0.len(),
    ensures
        flat_record(spec_apply_consts(Seq::empty(), cs)),
    decreases cs.len(),
{
    if cs.len() == 0 {
        assert(flat_record(Seq::empty()));
    } else {
        assert(forall|i: int|
            0 <= i < cs.drop_last().len() ==> spec_run_until((#[trigger] cs.drop_last()[i]).0, '.')
                == cs.drop_last()[i].0.len());
        lemma_apply_consts_wf(cs.drop_last());
        lemma_set_entry_wf(
            spec_apply_consts(Seq::empty(), cs.drop_last()),
            cs.last().0,
            spec_const_value(cs.last().1, cs.last().2),
        );
    }
}

/// Applying the positional fields keeps a flat record flat and leaves every
/// name no field carries untouched.
pub proof fn lemma_apply_fields_other(
    flat: Seq<(Seq<char>, ValueView)>,
    fs: Seq<(Seq<char>, Seq<char>)>,
    toks: Seq<Seq<char>>,
    ti: int,
    counter: int,
    other: Seq<char>,
)
    requires
        flat_record(flat),
        forall|i: int|
            0 <= i < fs.len() ==> spec_run_until((#[trigger] fs[i]).0, '.') == fs[i].0.len(),
        forall|i: int| 0 <= i < fs.len() ==> (#[trigger] fs[i]).0 != other,
    ensures
        flat_record(spec_apply_fields(flat, fs, toks, ti, counter).0),
        spec_lookup_row(spec_apply_fields(flat, fs, toks, ti, counter).0, other)
            == spec_lookup_row(flat, other),
    decreases fs.len(),
{
    if fs.len() > 0 {
        assert(forall|i: int|
            0 <= i < fs.drop_last().len() ==> (#[trigger] fs.drop_last()[i]) == fs[i]);
        lemma_apply_fields_other(flat, fs.drop_last(), toks, ti, counter, other);
        let rec = spec_apply_fields(flat, fs.drop_last(), toks, ti, counter);
        let name = fs.last().0;
        let typ = fs.last().1;
        assert(spec_run_until(name, '.') == name.len());
        assert(name != other);
        if typ == "i+"@ {
            let c2 = crate::decode::spec_bump(rec.2);
            lemma_set_entry_wf(rec.0, name, ValueView::Int(c2));
            lemma_lookup_set_entry_other(rec.0, name, ValueView::Int(c2), other);
        } else {
            let tok = if rec.1 < toks.len() {
                toks[rec.1]
            } else {
                "~"@
            };
            if tok == "~"@ {
            } else {
                let v = crate::decode::spec_parse_value(tok, typ);
                assert(is_leaf(v));
                lemma_set_entry_wf(rec.0, name, v);
                lemma_lookup_set_entry_other(rec.0, name, v, other);
            }
        }
    }
}

/// The constant-reapplication law, on whole rows: for a header whose
/// constant and field names are dot-free, whose constant names are
/// distinct, and whose fields do not reuse a constant's name, every decoded
/// row is an object carrying that constant's value, whatever the row's
/// tokens and counter.
pub proof fn lemma_constant_on_every_row(
    cs: Seq<(Seq<char>, Seq<char>, bool)>,
    fs: Seq<(Seq<char>, Seq<char>)>,
    toks: Seq<Seq<char>>,
    counter: int,
    j: int,
)
    requires
        0 <= j < cs.len(),
        forall|i: int|
            0 <= i < cs.len() ==> spec_run_until((#[trigger] cs[i]).0, '.') == cs[i].0.len(),
        forall|i: int|
            0 <= i < fs.len() ==> spec_run_until((#[trigger] fs[i]).0, '.') == fs[i].0.len(),
        forall|a: int, b: int| 0 <= a < b < cs.len() ==> (#[trigger] cs[a]).0 != (#[trigger] cs[b]).0,
        forall|i: int| 0 <= i < fs.len() ==> (#[trigger] fs[i]).0 != cs[j].0,
    ensures
        spec_decode_row(cs, fs, toks, counter) matches Ok(rc) && rc.0 matches ValueView::Object(es)
            && spec_lookup_row(es, cs[j].0) == spec_const_value(cs[j].1, cs[j].2),
{
    let flat0 = spec_apply_consts(Seq::empty(), cs);
    lemma_apply_consts_wf(cs);
    lemma_constant_reapplied(cs, j);
    lemma_apply_fields_other(flat0, fs, toks, 0, counter, cs[j].0);
    let flat = spec_apply_fields(flat0, fs, toks, 0, counter).0;
    lemma_unflatten_flat(flat);
}

} // verus!
