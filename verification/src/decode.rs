//! The decoder: scalar coercion, tabular and inline grammars, and dispatch.
use vstd::prelude::*;

use crate::text::chars_eq;
use crate::text::chars_eq_str;
use crate::text::chars_to_string;
use crate::text::is_space;
use crate::text::parse_i64;
use crate::text::replace_char;
use crate::text::run_until;
use crate::text::run_until2;
use crate::text::space;
use crate::text::spec_parse_i64;
use crate::text::spec_replace;
use crate::text::spec_run_until;
use crate::text::spec_run_until2;
use crate::text::spec_split_char;
use crate::text::spec_split_nl;
use crate::text::spec_split_ws;
use crate::text::spec_token_len;
use crate::text::spec_trim;
use crate::text::split_nl;
use crate::text::split_ws;
use crate::text::token_run;
use crate::text::trim;
use crate::text::views_of;
use crate::value::Value;
use crate::value::ValueView;
use crate::ZoonError;

verus! {

broadcast use vstd::std_specs::vec::group_vec_axioms, vstd::seq::group_seq_axioms;

/// The generic sniffing rule for an untyped token: `y`/`n` and `true`/`false`
/// read as booleans, integer literals as numbers, anything else as a string
/// with underscores unescaped to spaces.
pub open spec fn spec_sniff(s: Seq<char>) -> ValueView {
    if s == "y"@ {
        ValueView::Bool(true)
    } else if s == "n"@ {
        ValueView::Bool(false)
    } else if spec_parse_i64(s) is Some {
        ValueView::Int(spec_parse_i64(s)->Some_0)
    } else if s == "true"@ {
        ValueView::Bool(true)
    } else if s == "false"@ {
        ValueView::Bool(false)
    } else {
        ValueView::Str(spec_replace(s, '_', ' '))
    }
}

/// Scalar coercion of one token under a type hint. The null marker wins over
/// every hint; `i`/`i+` fall back to sniffing when the token is not an
/// integer; `b` maps `1`/`y`/`true` to true and everything else to false;
/// all other hints sniff generically.
pub open spec fn spec_parse_value(s: Seq<char>, t: Seq<char>) -> ValueView {
    if s == "~"@ {
        ValueView::Null
    } else if (t == "i"@ || t == "i+"@) && spec_parse_i64(s) is Some {
        ValueView::Int(spec_parse_i64(s)->Some_0)
    } else if t == "b"@ {
        ValueView::Bool(s == "1"@ || s == "y"@ || s == "true"@)
    } else {
        spec_sniff(s)
    }
}

/// Reads one untyped token, as [`spec_sniff`] describes.
pub fn sniff(s: &[char]) -> (r: Value)
    ensures
        r@ == spec_sniff(s@),
{
    if chars_eq_str(s, "y") {
        Value::Bool(true)
    } else if chars_eq_str(s, "n") {
        Value::Bool(false)
    } else {
        match parse_i64(s) {
            Some(v) => Value::Int(v),
            None => {
                if chars_eq_str(s, "true") {
                    Value::Bool(true)
                } else if chars_eq_str(s, "false") {
                    Value::Bool(false)
                } else {
                    let u = replace_char(s, '_', ' ');
                    Value::Str(chars_to_string(u.as_slice()))
                }
            },
        }
    }
}

/// Reads one token under a type hint, as [`spec_parse_value`] describes.
pub fn parse_value(s: &[char], t: &[char]) -> (r: Value)
    ensures
        r@ == spec_parse_value(s@, t@),
{
    if chars_eq_str(s, "~") {
        return Value::Null;
    }
    if chars_eq_str(t, "i") || chars_eq_str(t, "i+") {
        match parse_i64(s) {
            Some(v) => {
                return Value::Int(v);
            },
            None => {},
        }
    }
    if chars_eq_str(t, "b") {
        let b = chars_eq_str(s, "1") || chars_eq_str(s, "y") || chars_eq_str(s, "true");
        return Value::Bool(b);
    }
    sniff(s)
}

/// The value a header constant contributes to every row: the null marker is
/// null; a `=`-declared constant is a literal string (already unescaped);
/// a `:`-declared constant is sniffed generically.
pub open spec fn spec_const_value(val: Seq<char>, lit: bool) -> ValueView {
    if val == "~"@ {
        ValueView::Null
    } else if lit {
        ValueView::Str(val)
    } else {
        spec_sniff(val)
    }
}

/// Reads a header constant, as [`spec_const_value`] describes.
pub fn const_value(val: &[char], lit: bool) -> (r: Value)
    ensures
        r@ == spec_const_value(val@, lit),
{
    if chars_eq_str(val, "~") {
        Value::Null
    } else if lit {
        Value::Str(chars_to_string(val))
    } else {
        sniff(val)
    }
}

/// The resolution of one alias token: the prefix of the last definition of
/// that alias, if any.
pub open spec fn spec_alias_lookup(aliases: Seq<(Seq<char>, Seq<char>)>, name: Seq<char>) -> Option<
    Seq<char>,
>
    decreases aliases.len(),
{
    if aliases.len() == 0 {
        None
    } else if aliases.last().0 == name {
        Some(aliases.last().1)
    } else {
        spec_alias_lookup(aliases.drop_last(), name)
    }
}

/// Resolves a `%alias` or `%alias.rest` name against the alias table; an
/// unknown alias or a name without the marker is left unchanged.
pub open spec fn spec_unalias(aliases: Seq<(Seq<char>, Seq<char>)>, name: Seq<char>) -> Seq<char> {
    if name.len() > 0 && name[0] == '%' {
        let d = spec_run_until(name, '.');
        if d < name.len() {
            match spec_alias_lookup(aliases, name.subrange(1, d as int)) {
                Some(p) => p + seq!['.'] + name.skip(d as int + 1),
                None => name,
            }
        } else {
            match spec_alias_lookup(aliases, name.skip(1)) {
                Some(p) => p,
                None => name,
            }
        }
    } else {
        name
    }
}

/// The alias table after reading one `%`-line: each whitespace token holding
/// `=` past its first character defines `alias = token[1..e]` for
/// `prefix = token[e+1..]`; later definitions shadow earlier ones.
pub open spec fn spec_alias_tokens(
    aliases: Seq<(Seq<char>, Seq<char>)>,
    toks: Seq<Seq<char>>,
) -> Seq<(Seq<char>, Seq<char>)>
    decreases toks.len(),
{
    if toks.len() == 0 {
        aliases
    } else {
        let acc = spec_alias_tokens(aliases, toks.drop_last());
        let tok = toks.last();
        let e = spec_run_until(tok, '=');
        if 1 <= e < tok.len() {
            acc.push((tok.subrange(1, e as int), tok.skip(e as int + 1)))
        } else {
            acc
        }
    }
}

/// The view of an alias table held as character buffers.
pub open spec fn pairs_view(fs: Seq<(Vec<char>, Vec<char>)>) -> Seq<(Seq<char>, Seq<char>)> {
    Seq::new(fs.len(), |i: int| (fs[i].0@, fs[i].1@))
}

/// The view of a constant list held as character buffers.
pub open spec fn consts_view(cs: Seq<(Vec<char>, Vec<char>, bool)>) -> Seq<
    (Seq<char>, Seq<char>, bool),
> {
    Seq::new(cs.len(), |i: int| (cs[i].0@, cs[i].1@, cs[i].2))
}

/// Reads the alias definitions of one `%`-line into the table.
pub fn alias_line(aliases: &mut Vec<(Vec<char>, Vec<char>)>, line: &[char])
    ensures
        pairs_view(final(aliases)@) == spec_alias_tokens(
            pairs_view(old(aliases)@),
            spec_split_ws(line@),
        ),
{
    let toks = split_ws(line);
    let ghost tv = views_of(toks@);
    let n = toks.len();
    let mut i: usize = 0;
    while i < n
        invariant
            i <= n,
            n == toks@.len(),
            tv == views_of(toks@),
            tv == spec_split_ws(line@),
            pairs_view(aliases@) == spec_alias_tokens(pairs_view(old(aliases)@), tv.take(i as int)),
        decreases n - i,
    {
        proof {
            assert(tv.take(i + 1 as int).drop_last() =~= tv.take(i as int));
            assert(tv.take(i + 1 as int).last() == tv[i as int]);
        }
        let tok = &toks[i];
        let e = run_until(tok.as_slice(), '=');
        if 1 <= e && e < tok.len() {
            let alias = vstd::slice::slice_to_vec(&tok.as_slice()[1..e]);
            let prefix = vstd::slice::slice_to_vec(&tok.as_slice()[e + 1..tok.len()]);
            let ghost pre = pairs_view(aliases@);
            aliases.push((alias, prefix));
            proof {
                assert(pairs_view(aliases@) =~= pre.push(
                    (tv[i as int].subrange(1, e as int), tv[i as int].skip(e as int + 1)),
                ));
            }
        }
        i += 1;
    }
    proof {
        assert(tv.take(n as int) =~= tv);
    }
}

/// Resolves one name against the alias table, as [`spec_unalias`] describes.
pub fn unalias(aliases: &Vec<(Vec<char>, Vec<char>)>, name: Vec<char>) -> (r: Vec<char>)
    ensures
        r@ == spec_unalias(pairs_view(aliases@), name@),
{
    if name.len() == 0 || name[0] != '%' {
        return name;
    }
    let d = run_until(name.as_slice(), '.');
    if d < name.len() {
        let alias = vstd::slice::slice_to_vec(&name.as_slice()[1..d]);
        match alias_lookup(aliases, alias.as_slice()) {
            Some(p) => {
                let mut out = p;
                out.push('.');
                let mut k: usize = d + 1;
                let ghost out0 = out@;
                assert(out@ =~= out0 + name@.subrange(d + 1 as int, d + 1 as int));
                while k < name.len()
                    invariant
                        d + 1 <= k <= name@.len(),
                        out@ == out0 + name@.subrange(d + 1 as int, k as int),
                    decreases name@.len() - k,
                {
                    out.push(name[k]);
                    assert(out@ =~= out0 + name@.subrange(d + 1 as int, k + 1 as int));
                    k += 1;
                }
                proof {
                    assert(name@.subrange(d + 1 as int, name@.len() as int) =~= name@.skip(
                        d as int + 1,
                    ));
                    assert(out0 =~= out0.subrange(0, out0.len() as int));
                }
                out
            },
            None => name,
        }
    } else {
        let alias = vstd::slice::slice_to_vec(&name.as_slice()[1..name.len()]);
        proof {
            assert(alias@ =~= name@.skip(1));
        }
        match alias_lookup(aliases, alias.as_slice()) {
            Some(p) => p,
            None => name,
        }
    }
}

/// Looks an alias token up in the table, later definitions first.
pub fn alias_lookup(aliases: &Vec<(Vec<char>, Vec<char>)>, name: &[char]) -> (r: Option<Vec<char>>)
    ensures
        match r {
            Some(p) => spec_alias_lookup(pairs_view(aliases@), name@) == Some(p@),
            None => spec_alias_lookup(pairs_view(aliases@), name@) is None,
        },
{
    let n = aliases.len();
    let mut i: usize = n;
    proof {
        assert(pairs_view(aliases@).take(n as int) =~= pairs_view(aliases@));
    }
    while i > 0
        invariant
            i <= n,
            n == aliases@.len(),
            spec_alias_lookup(pairs_view(aliases@), name@) == spec_alias_lookup(
                pairs_view(aliases@).take(i as int),
                name@,
            ),
        decreases i,
    {
        i -= 1;
        let ghost pv = pairs_view(aliases@);
        proof {
            assert(pv.take(i + 1 as int).drop_last() =~= pv.take(i as int));
            assert(pv.take(i + 1 as int).last() == pv[i as int]);
        }
        if chars_eq(aliases[i].0.as_slice(), name) {
            return Some(vstd::slice::slice_to_vec(aliases[i].1.as_slice()));
        }
    }
    proof {
        let pv = pairs_view(aliases@);
        assert(pv.take(0) =~= Seq::<(Seq<char>, Seq<char>)>::empty());
    }
    None
}


/// The error kinds of the decoder's model: a structural grammar violation,
/// or a path conflict while unflattening.
pub enum ErrKind {
    Format,
    Conflict,
}

/// Whether an error value carries the kind the model predicts.
pub open spec fn err_matches(e: ZoonError, k: ErrKind) -> bool {
    match k {
        ErrKind::Format => e is InvalidFormat,
        ErrKind::Conflict => e is ParseError,
    }
}

/// The parsed header of a tabular block: constants, positional fields, and
/// the explicit row count (negative when absent).
pub struct HeaderView {
    pub constants: Seq<(Seq<char>, Seq<char>, bool)>,
    pub fields: Seq<(Seq<char>, Seq<char>)>,
    pub explicit: int,
}

/// Reads one header token into the parsed header: `+N` sets the explicit row
/// count, `@name` declares a constant, anything else a positional field;
/// a token without `:` or `=` is skipped.
pub open spec fn spec_header_token(
    h: HeaderView,
    aliases: Seq<(Seq<char>, Seq<char>)>,
    tok: Seq<char>,
) -> HeaderView {
    if tok.len() > 0 && tok[0] == '+' {
        match spec_parse_i64(tok.skip(1)) {
            Some(v) => if -2147483648 <= v <= 2147483647 {
                HeaderView { constants: h.constants, fields: h.fields, explicit: v }
            } else {
                h
            },
            None => h,
        }
    } else {
        let is_const = tok.len() > 0 && tok[0] == '@';
        let clean = if is_const {
            tok.skip(1)
        } else {
            tok
        };
        let e = spec_run_until2(clean, ':', '=');
        if e == clean.len() {
            h
        } else {
            let name = spec_unalias(aliases, clean.take(e as int));
            let sepch = clean[e as int];
            let suffix = clean.skip(e as int + 1);
            if is_const {
                if sepch == '=' {
                    HeaderView {
                        constants: h.constants.push((name, spec_replace(suffix, '_', ' '), true)),
                        fields: h.fields,
                        explicit: h.explicit,
                    }
                } else {
                    HeaderView {
                        constants: h.constants.push((name, suffix, false)),
                        fields: h.fields,
                        explicit: h.explicit,
                    }
                }
            } else {
                let t = if sepch == '=' {
                    "s"@
                } else {
                    suffix
                };
                HeaderView {
                    constants: h.constants,
                    fields: h.fields.push((name, t)),
                    explicit: h.explicit,
                }
            }
        }
    }
}

/// The header read from its whitespace tokens, left to right.
pub open spec fn spec_parse_header(
    toks: Seq<Seq<char>>,
    aliases: Seq<(Seq<char>, Seq<char>)>,
) -> HeaderView
    decreases toks.len(),
{
    if toks.len() == 0 {
        HeaderView { constants: Seq::empty(), fields: Seq::empty(), explicit: -1 }
    } else {
        spec_header_token(spec_parse_header(toks.drop_last(), aliases), aliases, toks.last())
    }
}

/// Reads the header tokens, as [`spec_parse_header`] describes.
pub fn parse_header(toks: &Vec<Vec<char>>, aliases: &Vec<(Vec<char>, Vec<char>)>) -> (r: (
    Vec<(Vec<char>, Vec<char>, bool)>,
    Vec<(Vec<char>, Vec<char>)>,
    i64,
))
    ensures
        ({
            let h = spec_parse_header(views_of(toks@), pairs_view(aliases@));
            consts_view(r.0@) == h.constants && pairs_view(r.1@) == h.fields && r.2 as int
                == h.explicit
        }),
{
    let ghost tv = views_of(toks@);
    let ghost av = pairs_view(aliases@);
    let mut constants: Vec<(Vec<char>, Vec<char>, bool)> = Vec::new();
    let mut fields: Vec<(Vec<char>, Vec<char>)> = Vec::new();
    let mut explicit: i64 = -1;
    let n = toks.len();
    let mut i: usize = 0;
    proof {
        assert(consts_view(constants@) =~= Seq::<(Seq<char>, Seq<char>, bool)>::empty());
        assert(pairs_view(fields@) =~= Seq::<(Seq<char>, Seq<char>)>::empty());
        assert(tv.take(0) =~= Seq::<Seq<char>>::empty());
    }
    while i < n
        invariant
            i <= n,
            n == toks@.len(),
            tv == views_of(toks@),
            av == pairs_view(aliases@),
            ({
                let h = spec_parse_header(tv.take(i as int), av);
                consts_view(constants@) == h.constants && pairs_view(fields@) == h.fields
                    && explicit as int == h.explicit
            }),
        decreases n - i,
    {
        proof {
            assert(tv.take(i + 1 as int).drop_last() =~= tv.take(i as int));
            assert(tv.take(i + 1 as int).last() == tv[i as int]);
        }
        let ghost h0 = spec_parse_header(tv.take(i as int), av);
        let tok = &toks[i];
        if tok.len() > 0 && tok[0] == '+' {
            let rest = &tok.as_slice()[1..tok.len()];
            assert(rest@ =~= tv[i as int].skip(1));
            match parse_i64(rest) {
                Some(v) => {
                    if -2147483648 <= v && v <= 2147483647 {
                        explicit = v;
                    }
                },
                None => {},
            }
            proof {
                let hn = spec_header_token(h0, av, tv[i as int]);
                assert(consts_view(constants@) == hn.constants);
                assert(pairs_view(fields@) == hn.fields);
                assert(explicit as int == hn.explicit);
            }
        } else {
            let is_const = tok.len() > 0 && tok[0] == '@';
            let clean: &[char] = if is_const {
                &tok.as_slice()[1..tok.len()]
            } else {
                tok.as_slice()
            };
            proof {
                if is_const {
                    assert(clean@ =~= tv[i as int].skip(1));
                }
            }
            let e = run_until2(clean, ':', '=');
            proof {
                crate::text::lemma_run_until2(clean@, ':', '=');
                if spec_run_until2(clean@, ':', '=') == clean@.len() {
                    let hn = spec_header_token(h0, av, tv[i as int]);
                    assert(consts_view(constants@) == hn.constants);
                    assert(pairs_view(fields@) == hn.fields);
                }
            }
            if e < clean.len() {
                let name_raw = vstd::slice::slice_to_vec(&clean[0..e]);
                assert(name_raw@ =~= clean@.take(e as int));
                let name = unalias(aliases, name_raw);
                let sepch = clean[e];
                let suffix = vstd::slice::slice_to_vec(&clean[e + 1..clean.len()]);
                assert(suffix@ =~= clean@.skip(e as int + 1));
                if is_const {
                    if sepch == '=' {
                        let unesc = replace_char(suffix.as_slice(), '_', ' ');
                        constants.push((name, unesc, true));
                    } else {
                        constants.push((name, suffix, false));
                    }
                    proof {
                        let hn = spec_header_token(h0, av, tv[i as int]);
                        assert(consts_view(constants@) =~= hn.constants);
                        assert(consts_view(constants@) == hn.constants);
                        assert(pairs_view(fields@) == hn.fields);
                    }
                } else {
                    if sepch == '=' {
                        let mut t: Vec<char> = Vec::new();
                        t.push('s');
                        proof {
                            reveal_strlit("s");
                            assert(t@ =~= "s"@);
                        }
                        fields.push((name, t));
                    } else {
                        fields.push((name, suffix));
                    }
                    proof {
                        let hn = spec_header_token(h0, av, tv[i as int]);
                        assert(pairs_view(fields@) =~= hn.fields);
                        assert(pairs_view(fields@) == hn.fields);
                        assert(consts_view(constants@) == hn.constants);
                    }
                }
            }
        }
        proof {
            let hn = spec_header_token(h0, av, tv[i as int]);
            assert(spec_parse_header(tv.take(i + 1 as int), av) == hn);
            assert(consts_view(constants@) == hn.constants);
            assert(pairs_view(fields@) == hn.fields);
            assert(explicit as int == hn.explicit);
        }
        i += 1;
    }
    proof {
        assert(tv.take(n as int) =~= tv);
    }
    (constants, fields, explicit)
}


/// Saturating advance of the auto-increment counter.
pub open spec fn spec_bump(c: int) -> int {
    if c < 9223372036854775807 {
        c + 1
    } else {
        c
    }
}

/// The flat map after applying every header constant, in declared order.
pub open spec fn spec_apply_consts(
    flat: Seq<(Seq<char>, ValueView)>,
    cs: Seq<(Seq<char>, Seq<char>, bool)>,
) -> Seq<(Seq<char>, ValueView)>
    decreases cs.len(),
{
    if cs.len() == 0 {
        flat
    } else {
        crate::paths::spec_set_entry(
            spec_apply_consts(flat, cs.drop_last()),
            cs.last().0,
            spec_const_value(cs.last().1, cs.last().2),
        )
    }
}

/// The flat map, token index and counter after applying the positional
/// fields in declared order: an `i+` field takes the next counter value and
/// consumes no token; any other field takes the next unconsumed token, or the
/// null marker when the row ran out, and a null cell is omitted.
pub open spec fn spec_apply_fields(
    flat: Seq<(Seq<char>, ValueView)>,
    fs: Seq<(Seq<char>, Seq<char>)>,
    toks: Seq<Seq<char>>,
    ti: int,
    counter: int,
) -> (Seq<(Seq<char>, ValueView)>, int, int)
    decreases fs.len(),
{
    if fs.len() == 0 {
        (flat, ti, counter)
    } else {
        let rec = spec_apply_fields(flat, fs.drop_last(), toks, ti, counter);
        let name = fs.last().0;
        let typ = fs.last().1;
        if typ == "i+"@ {
            let c2 = spec_bump(rec.2);
            (crate::paths::spec_set_entry(rec.0, name, ValueView::Int(c2)), rec.1, c2)
        } else {
            let tok = if rec.1 < toks.len() {
                toks[rec.1]
            } else {
                "~"@
            };
            let nt = if rec.1 < toks.len() {
                rec.1 + 1
            } else {
                rec.1
            };
            if tok == "~"@ {
                (rec.0, nt, rec.2)
            } else {
                (crate::paths::spec_set_entry(rec.0, name, spec_parse_value(tok, typ)), nt, rec.2)
            }
        }
    }
}

/// One decoded row: constants first, then fields, then unflattening; the
/// second component is the advanced counter.
pub open spec fn spec_decode_row(
    cs: Seq<(Seq<char>, Seq<char>, bool)>,
    fs: Seq<(Seq<char>, Seq<char>)>,
    toks: Seq<Seq<char>>,
    counter: int,
) -> Result<(ValueView, int), ()> {
    let flat0 = spec_apply_consts(Seq::empty(), cs);
    let r = spec_apply_fields(flat0, fs, toks, 0, counter);
    match crate::paths::spec_unflatten(r.0) {
        Ok(es) => Ok((ValueView::Object(es), r.2)),
        Err(_) => Err(()),
    }
}

/// The position of the first flat-map entry with the given key.
pub fn find_key_row(row: &Vec<(Vec<char>, Value)>, k: &[char]) -> (r: Option<usize>)
    ensures
        match r {
            Some(i) => crate::paths::spec_find_key(crate::paths::row_view(row@), k@) == Some(
                i as int,
            ),
            None => crate::paths::spec_find_key(crate::paths::row_view(row@), k@) is None,
        },
{
    proof {
        crate::paths::lemma_row_view(row@);
        crate::paths::lemma_find_key(crate::paths::row_view(row@), k@);
    }
    let n = row.len();
    let mut i: usize = 0;
    while i < n
        invariant
            i <= n,
            n == row@.len(),
            forall|j: int|
                0 <= j < i ==> (#[trigger] crate::paths::row_view(row@)[j]).0 != k@,
        decreases n - i,
    {
        proof {
            crate::paths::lemma_row_view(row@);
            crate::paths::lemma_find_key(crate::paths::row_view(row@), k@);
        }
        if chars_eq(row[i].0.as_slice(), k) {
            assert(crate::paths::row_view(row@)[i as int].0 == k@);
            return Some(i);
        }
        i += 1;
    }
    None
}

/// Binds `k` to `v` in a flat map: the first entry with that key is replaced
/// in place, or a new entry is appended.
pub fn insert_flat(row: &mut Vec<(Vec<char>, Value)>, k: Vec<char>, v: Value)
    ensures
        crate::paths::row_view(final(row)@) == crate::paths::spec_set_entry(
            crate::paths::row_view(old(row)@),
            k@,
            v@,
        ),
{
    let ghost rv0 = crate::paths::row_view(row@);
    proof {
        crate::paths::lemma_row_view(row@);
        crate::paths::lemma_set_entry(rv0, k@, v@);
        crate::paths::lemma_find_key(rv0, k@);
    }
    let found = find_key_row(row, k.as_slice());
    match found {
        Some(i) => {
            row.remove(i);
            row.insert(i, (k, v));
            proof {
                crate::paths::lemma_row_view(row@);
                assert(crate::paths::row_view(row@) =~= rv0.update(i as int, (k@, v@)));
            }
        },
        None => {
            row.push((k, v));
            proof {
                crate::paths::lemma_row_view(row@);
                assert(crate::paths::row_view(row@) =~= rv0.push((k@, v@)));
            }
        },
    }
}

/// The decoder state of one tabular block: the header constants, the
/// positional fields, and the document-wide auto-increment counter.
pub struct RowDecoder {
    pub constants: Vec<(Vec<char>, Vec<char>, bool)>,
    pub fields: Vec<(Vec<char>, Vec<char>)>,
    pub counter: i64,
}

impl RowDecoder {
    /// Consumes one row's tokens and produces the row's object, advancing
    /// the shared counter past each `i+` field.
    pub fn decode_row(&mut self, toks: &Vec<Vec<char>>) -> (r: Result<Value, ZoonError>)
        requires
            old(self).counter >= 0,
        ensures
            final(self).constants == old(self).constants,
            final(self).fields == old(self).fields,
            final(self).counter >= 0,
            match r {
                Ok(v) => spec_decode_row(
                    consts_view(old(self).constants@),
                    pairs_view(old(self).fields@),
                    views_of(toks@),
                    old(self).counter as int,
                ) matches Ok((m, c2)) && v@ == m && final(self).counter as int == c2,
                Err(e) => spec_decode_row(
                    consts_view(old(self).constants@),
                    pairs_view(old(self).fields@),
                    views_of(toks@),
                    old(self).counter as int,
                ) is Err && e is ParseError,
            },
    {
        let ghost cv = consts_view(self.constants@);
        let ghost fv = pairs_view(self.fields@);
        let ghost tv = views_of(toks@);
        let ghost c0 = self.counter as int;
        let mut flat: Vec<(Vec<char>, Value)> = Vec::new();
        proof {
            assert(crate::paths::row_view(flat@) =~= Seq::<(Seq<char>, ValueView)>::empty());
            assert(cv.take(0) =~= Seq::<(Seq<char>, Seq<char>, bool)>::empty());
        }
        let nc = self.constants.len();
        let mut i: usize = 0;
        while i < nc
            invariant
                i <= nc,
                nc == self.constants@.len(),
                self.constants == old(self).constants,
                self.fields == old(self).fields,
                self.counter == old(self).counter,
                cv == consts_view(self.constants@),
                crate::paths::row_view(flat@) == spec_apply_consts(
                    Seq::empty(),
                    cv.take(i as int),
                ),
            decreases nc - i,
        {
            proof {
                assert(cv.take(i + 1 as int).drop_last() =~= cv.take(i as int));
                assert(cv.take(i + 1 as int).last() == cv[i as int]);
            }
            let key = vstd::slice::slice_to_vec(self.constants[i].0.as_slice());
            let val = const_value(self.constants[i].1.as_slice(), self.constants[i].2);
            insert_flat(&mut flat, key, val);
            i += 1;
        }
        proof {
            assert(cv.take(nc as int) =~= cv);
            assert(fv.take(0) =~= Seq::<(Seq<char>, Seq<char>)>::empty());
        }
        let ghost flat0 = crate::paths::row_view(flat@);
        let nf = self.fields.len();
        let mut j: usize = 0;
        let mut ti: usize = 0;
        while j < nf
            invariant
                j <= nf,
                nf == self.fields@.len(),
                self.constants == old(self).constants,
                self.fields == old(self).fields,
                self.counter >= 0,
                fv == pairs_view(self.fields@),
                tv == views_of(toks@),
                ti <= tv.len(),
                tv.len() == toks@.len(),
                spec_apply_fields(flat0, fv.take(j as int), tv, 0, c0) == (
                    crate::paths::row_view(flat@),
                    ti as int,
                    self.counter as int,
                ),
            decreases nf - j,
        {
            proof {
                assert(fv.take(j + 1 as int).drop_last() =~= fv.take(j as int));
                assert(fv.take(j + 1 as int).last() == fv[j as int]);
            }
            let name = vstd::slice::slice_to_vec(self.fields[j].0.as_slice());
            let is_auto = chars_eq_str(self.fields[j].1.as_slice(), "i+");
            if is_auto {
                if self.counter < 9223372036854775807i64 {
                    self.counter = self.counter + 1;
                }
                insert_flat(&mut flat, name, Value::Int(self.counter));
            } else {
                if ti < toks.len() {
                    let tok = &toks[ti];
                    ti += 1;
                    if !chars_eq_str(tok.as_slice(), "~") {
                        let val = parse_value(tok.as_slice(), self.fields[j].1.as_slice());
                        insert_flat(&mut flat, name, val);
                    }
                } else {
                    proof {
                        reveal_strlit("~");
                    }
                }
            }
            j += 1;
        }
        proof {
            assert(fv.take(nf as int) =~= fv);
        }
        match crate::paths::unflatten(flat) {
            Ok(v) => Ok(v),
            Err(e) => Err(e),
        }
    }
}


/// The rows decoded from an explicit `+N` count: each is built purely from
/// constants and auto-increment fields, consuming no tokens.
pub open spec fn spec_explicit_rows(
    cs: Seq<(Seq<char>, Seq<char>, bool)>,
    fs: Seq<(Seq<char>, Seq<char>)>,
    n: int,
    counter: int,
) -> Result<(Seq<ValueView>, int), ()>
    decreases n,
{
    if n <= 0 {
        Ok((Seq::empty(), counter))
    } else {
        match spec_explicit_rows(cs, fs, n - 1, counter) {
            Err(e) => Err(e),
            Ok(acc) => match spec_decode_row(cs, fs, Seq::empty(), acc.1) {
                Ok(rc) => Ok((acc.0.push(rc.0), rc.1)),
                Err(e) => Err(e),
            },
        }
    }
}

/// Once an explicit row conflicts, all later explicit rows conflict.
pub proof fn lemma_explicit_rows_err(
    cs: Seq<(Seq<char>, Seq<char>, bool)>,
    fs: Seq<(Seq<char>, Seq<char>)>,
    k: int,
    n: int,
    counter: int,
)
    requires
        k <= n,
        spec_explicit_rows(cs, fs, k, counter) is Err,
    ensures
        spec_explicit_rows(cs, fs, n, counter) is Err,
    decreases n - k,
{
    if k < n {
        lemma_explicit_rows_err(cs, fs, k, n - 1, counter);
    }
}

/// The rows decoded from the physical row lines: blank lines are skipped,
/// any other line is whitespace-split and decoded as one row.
pub open spec fn spec_line_rows(
    cs: Seq<(Seq<char>, Seq<char>, bool)>,
    fs: Seq<(Seq<char>, Seq<char>)>,
    lines: Seq<Seq<char>>,
    counter: int,
) -> Result<(Seq<ValueView>, int), ()>
    decreases lines.len(),
{
    if lines.len() == 0 {
        Ok((Seq::empty(), counter))
    } else {
        match spec_line_rows(cs, fs, lines.drop_last(), counter) {
            Err(e) => Err(e),
            Ok(acc) => {
                let l = spec_trim(lines.last());
                if l.len() == 0 {
                    Ok(acc)
                } else {
                    match spec_decode_row(cs, fs, spec_split_ws(l), acc.1) {
                        Ok(rc) => Ok((acc.0.push(rc.0), rc.1)),
                        Err(e) => Err(e),
                    }
                }
            },
        }
    }
}

/// Once a row line conflicts, the remaining lines conflict.
pub proof fn lemma_line_rows_err(
    cs: Seq<(Seq<char>, Seq<char>, bool)>,
    fs: Seq<(Seq<char>, Seq<char>)>,
    lines: Seq<Seq<char>>,
    i: int,
    counter: int,
)
    requires
        0 <= i <= lines.len(),
        spec_line_rows(cs, fs, lines.take(i), counter) is Err,
    ensures
        spec_line_rows(cs, fs, lines, counter) is Err,
    decreases lines.len() - i,
{
    if i < lines.len() {
        assert(lines.take(i + 1).drop_last() =~= lines.take(i));
        lemma_line_rows_err(cs, fs, lines, i + 1, counter);
    } else {
        assert(lines.take(i) =~= lines);
    }
}

/// The state-machine scan before the header: `%`-lines accumulate aliases,
/// a `#`-line is the header, any other non-blank line (or running out of
/// input) is a structural error.
pub open spec fn spec_scan_header(
    lines: Seq<Seq<char>>,
    i: int,
    aliases: Seq<(Seq<char>, Seq<char>)>,
) -> Result<(Seq<(Seq<char>, Seq<char>)>, Seq<char>, int), ()>
    decreases lines.len() - i,
{
    if i >= lines.len() {
        Err(())
    } else {
        let l = spec_trim(lines[i]);
        if l.len() == 0 {
            spec_scan_header(lines, i + 1, aliases)
        } else if l[0] == '%' {
            spec_scan_header(lines, i + 1, spec_alias_tokens(aliases, spec_split_ws(l)))
        } else if l[0] == '#' {
            Ok((aliases, l, i + 1))
        } else {
            Err(())
        }
    }
}

/// Runs the pre-header scan, as [`spec_scan_header`] describes.
pub fn scan_header(
    lines: &Vec<Vec<char>>,
    idx: usize,
    aliases: Vec<(Vec<char>, Vec<char>)>,
) -> (r: Result<(Vec<(Vec<char>, Vec<char>)>, Vec<char>, usize), ZoonError>)
    ensures
        match r {
            Ok(t) => spec_scan_header(views_of(lines@), idx as int, pairs_view(aliases@)) == Ok::<
                _,
                (),
            >((pairs_view(t.0@), t.1@, t.2 as int)) && t.2 <= lines@.len(),
            Err(e) => spec_scan_header(views_of(lines@), idx as int, pairs_view(aliases@)) is Err
                && e is InvalidFormat,
        },
    decreases lines@.len() - idx,
{
    if idx >= lines.len() {
        return Err(ZoonError::InvalidFormat(String::from_str("missing header")));
    }
    let l = trim(lines[idx].as_slice());
    if l.len() == 0 {
        return scan_header(lines, idx + 1, aliases);
    }
    if l[0] == '%' {
        let mut aliases = aliases;
        alias_line(&mut aliases, l);
        return scan_header(lines, idx + 1, aliases);
    }
    if l[0] == '#' {
        return Ok((aliases, vstd::slice::slice_to_vec(l), idx + 1));
    }
    Err(ZoonError::InvalidFormat(String::from_str("expected header starting with #")))
}

/// The model of one tabular block: aliases, header, explicit rows, then the
/// physical row lines.
pub open spec fn spec_decode_tabular(s: Seq<char>) -> Result<Seq<ValueView>, ErrKind> {
    let lines = spec_split_nl(s);
    match spec_scan_header(lines, 0, Seq::empty()) {
        Err(_) => Err(ErrKind::Format),
        Ok(sc) => {
            let toks = spec_split_ws(
                if sc.1.len() >= 2 {
                    sc.1.skip(2)
                } else {
                    Seq::empty()
                },
            );
            let h = spec_parse_header(toks, sc.0);
            let first = if h.explicit > 0 {
                spec_explicit_rows(h.constants, h.fields, h.explicit, 0)
            } else {
                Ok((Seq::empty(), 0))
            };
            match first {
                Err(_) => Err(ErrKind::Conflict),
                Ok(fr) => match spec_line_rows(h.constants, h.fields, lines.skip(sc.2), fr.1) {
                    Err(_) => Err(ErrKind::Conflict),
                    Ok(lr) => Ok(fr.0 + lr.0),
                },
            }
        },
    }
}

/// Decodes one tabular block, as [`spec_decode_tabular`] describes.
#[verifier::loop_isolation(false)]
pub fn decode_tabular(s: &[char]) -> (r: Result<Value, ZoonError>)
    ensures
        match r {
            Ok(v) => spec_decode_tabular(s@) matches Ok(rows) && v@ == ValueView::Array(rows),
            Err(e) => spec_decode_tabular(s@) matches Err(k) && err_matches(e, k),
        },
{
    let lines = split_nl(s);
    let ghost lv = views_of(lines@);
    let empty_aliases: Vec<(Vec<char>, Vec<char>)> = Vec::new();
    proof {
        assert(pairs_view(empty_aliases@) =~= Seq::<(Seq<char>, Seq<char>)>::empty());
    }
    let scanned = scan_header(&lines, 0, empty_aliases);
    match scanned {
        Err(e) => Err(e),
        Ok((aliases, hline, idx)) => {
            let htoks_slice: &[char] = if hline.len() >= 2 {
                &hline.as_slice()[2..hline.len()]
            } else {
                &hline.as_slice()[0..0]
            };
            proof {
                if hline@.len() >= 2 {
                    assert(htoks_slice@ =~= hline@.skip(2));
                } else {
                    assert(htoks_slice@ =~= Seq::<char>::empty());
                }
            }
            let htoks = split_ws(htoks_slice);
            let ghost h = spec_parse_header(views_of(htoks@), pairs_view(aliases@));
            let (constants, fields, explicit) = parse_header(&htoks, &aliases);
            let ghost cv = consts_view(constants@);
            let ghost fv = pairs_view(fields@);
            let mut dec = RowDecoder { constants, fields, counter: 0 };
            let mut rows: Vec<Value> = Vec::new();
            proof {
                crate::value::lemma_view_items(rows@);
                assert(crate::value::view_items(rows@) =~= Seq::<ValueView>::empty());
            }
            if explicit > 0 {
                let empty_toks: Vec<Vec<char>> = Vec::new();
                proof {
                    assert(views_of(empty_toks@) =~= Seq::<Seq<char>>::empty());
                }
                let mut k: i64 = 0;
                while k < explicit
                    invariant
                        0 <= k <= explicit,
                        cv == consts_view(dec.constants@),
                        fv == pairs_view(dec.fields@),
                        dec.counter >= 0,
                        spec_explicit_rows(cv, fv, k as int, 0) == Ok::<_, ()>((
                            crate::value::view_items(rows@),
                            dec.counter as int,
                        )),
                    decreases explicit - k,
                {
                    let ghost pre = crate::value::view_items(rows@);
                    match dec.decode_row(&empty_toks) {
                        Ok(v) => {
                            let ghost vv = v@;
                            proof {
                                crate::value::lemma_view_items(rows@);
                            }
                            rows.push(v);
                            proof {
                                crate::value::lemma_view_items(rows@);
                                assert(crate::value::view_items(rows@) =~= pre.push(vv));
                            }
                        },
                        Err(e) => {
                            proof {
                                assert(spec_explicit_rows(cv, fv, k + 1 as int, 0) is Err);
                                lemma_explicit_rows_err(cv, fv, k + 1 as int, explicit as int, 0);
                            }
                            return Err(e);
                        },
                    }
                    k += 1;
                }
            }
            let ghost r1 = crate::value::view_items(rows@);
            let ghost c1 = dec.counter as int;
            let ghost rl = lv.skip(idx as int);
            let n = lines.len();
            let mut m: usize = idx;
            proof {
                assert(rl.take(0) =~= Seq::<Seq<char>>::empty());
            }
            while m < n
                invariant
                    idx <= m <= n,
                    cv == consts_view(dec.constants@),
                    fv == pairs_view(dec.fields@),
                    dec.counter >= 0,
                    spec_line_rows(cv, fv, rl.take(m - idx), c1) matches Ok(p)
                        && crate::value::view_items(rows@) == r1 + p.0 && dec.counter as int
                        == p.1,
                decreases n - m,
            {
                proof {
                    assert(rl.take(m - idx + 1).drop_last() =~= rl.take(m - idx));
                    assert(rl.take(m - idx + 1).last() == lv[m as int]);
                }
                let l = trim(lines[m].as_slice());
                if l.len() > 0 {
                    let toks = split_ws(l);
                    let ghost pre = crate::value::view_items(rows@);
                    match dec.decode_row(&toks) {
                        Ok(v) => {
                            let ghost vv = v@;
                            proof {
                                crate::value::lemma_view_items(rows@);
                            }
                            rows.push(v);
                            proof {
                                crate::value::lemma_view_items(rows@);
                                assert(crate::value::view_items(rows@) =~= pre.push(vv));
                            }
                        },
                        Err(e) => {
                            proof {
                                assert(spec_line_rows(cv, fv, rl.take(m - idx + 1), c1) is Err);
                                lemma_line_rows_err(cv, fv, rl, m - idx + 1, c1);
                            }
                            return Err(e);
                        },
                    }
                }
                m += 1;
            }
            proof {
                assert(rl.take(n - idx) =~= rl);
            }
            Ok(Value::Array(rows))
        },
    }
}


/// The position just past the brace that closes the block opened at the
/// first character, counting nesting depth; or the end of input.
pub open spec fn spec_brace_end(s: Seq<char>, i: int, depth: int) -> int
    decreases s.len() - i,
{
    if i >= s.len() || depth <= 0 {
        i
    } else {
        spec_brace_end(
            s,
            i + 1,
            depth + (if s[i] == '{' {
                1int
            } else if s[i] == '}' {
                -1int
            } else {
                0int
            }),
        )
    }
}

/// Scans past a brace block, as [`spec_brace_end`] describes.
#[verifier::loop_isolation(false)]
pub fn brace_end(s: &[char]) -> (r: usize)
    ensures
        r == spec_brace_end(s@, 1, 1),
        1 <= r <= s@.len() || (s@.len() == 0 && r == 1),
{
    let n = s.len();
    let mut pos: usize = 1;
    let mut depth: usize = 1;
    while pos < n && depth > 0
        invariant
            1 <= pos,
            pos <= n || pos == 1,
            depth <= pos,
            spec_brace_end(s@, 1, 1) == spec_brace_end(s@, pos as int, depth as int),
        decreases n - pos,
    {
        let c = s[pos];
        if c == '{' {
            depth += 1;
        }
        if c == '}' {
            depth -= 1;
        }
        pos += 1;
    }
    pos
}

/// The model of an inline block: a single scan accumulating keyed values
/// into one object, with brace-nested blocks decoded recursively.
pub open spec fn spec_inline(s: Seq<char>, acc: Seq<(Seq<char>, ValueView)>) -> Result<
    Seq<(Seq<char>, ValueView)>,
    (),
>
    decreases s.len(),
{
    if s.len() == 0 {
        Ok(acc)
    } else if is_space(s[0]) {
        spec_inline(s.drop_first(), acc)
    } else {
        let ke = spec_run_until2(s, ':', '=');
        if ke == s.len() {
            Ok(acc)
        } else {
            proof {
                crate::text::lemma_run_until2(s, ':', '=');
            }
            let key = s.take(ke as int);
            let sep = s[ke as int];
            let after = s.skip(ke as int + 1);
            if after.len() > 0 && after[0] == '{' {
                let be = spec_brace_end(after, 1, 1);
                proof {
                    lemma_brace_end_bounds(after, 1, 1);
                }
                let value = after.take(be);
                let rest = after.skip(be);
                if value.len() >= 2 && value.last() == '}' {
                    match spec_inline(value.subrange(1, value.len() - 1), Seq::empty()) {
                        Err(e) => Err(e),
                        Ok(ins) => match crate::paths::spec_set_path(
                            acc,
                            spec_split_char(key, '.'),
                            ValueView::Object(ins),
                        ) {
                            Err(_) => Err(()),
                            Ok(acc2) => spec_inline(rest, acc2),
                        },
                    }
                } else {
                    let v = if sep == '=' {
                        ValueView::Str(spec_replace(value, '_', ' '))
                    } else {
                        spec_parse_value(value, "auto"@)
                    };
                    match crate::paths::spec_set_path(acc, spec_split_char(key, '.'), v) {
                        Err(_) => Err(()),
                        Ok(acc2) => spec_inline(rest, acc2),
                    }
                }
            } else {
                let vl = spec_token_len(after);
                proof {
                    crate::text::lemma_token_len(after);
                }
                let value = after.take(vl as int);
                let rest = after.skip(vl as int);
                let v = if sep == '=' {
                    ValueView::Str(spec_replace(value, '_', ' '))
                } else {
                    spec_parse_value(value, "auto"@)
                };
                match crate::paths::spec_set_path(acc, spec_split_char(key, '.'), v) {
                    Err(_) => Err(()),
                    Ok(acc2) => spec_inline(rest, acc2),
                }
            }
        }
    }
}

/// The brace scan stays within the input and moves forward.
pub proof fn lemma_brace_end_bounds(s: Seq<char>, i: int, depth: int)
    requires
        1 <= i <= s.len(),
        depth >= 0,
    ensures
        i <= spec_brace_end(s, i, depth) <= s.len(),
    decreases s.len() - i,
{
    if i < s.len() && depth > 0 {
        lemma_brace_end_bounds(
            s,
            i + 1,
            depth + (if s[i] == '{' {
                1int
            } else if s[i] == '}' {
                -1int
            } else {
                0int
            }),
        );
    }
}

/// Decodes an inline block into accumulated object entries, as
/// [`spec_inline`] describes.
pub fn decode_inline_acc(s: &[char], acc: Vec<(String, Value)>) -> (r: Result<
    Vec<(String, Value)>,
    ZoonError,
>)
    ensures
        match r {
            Ok(out) => spec_inline(s@, crate::value::view_entries(acc@)) == Ok::<_, ()>(
                crate::value::view_entries(out@),
            ),
            Err(e) => spec_inline(s@, crate::value::view_entries(acc@)) is Err && e is ParseError,
        },
    decreases s@.len(),
{
    if s.len() == 0 {
        return Ok(acc);
    }
    if space(s[0]) {
        let sub = &s[1..s.len()];
        assert(sub@ =~= s@.drop_first());
        return decode_inline_acc(sub, acc);
    }
    let ke = run_until2(s, ':', '=');
    proof {
        crate::text::lemma_run_until2(s@, ':', '=');
    }
    if ke == s.len() {
        return Ok(acc);
    }
    let key = vstd::slice::slice_to_vec(&s[0..ke]);
    assert(key@ =~= s@.take(ke as int));
    let sep = s[ke];
    let after = &s[ke + 1..s.len()];
    assert(after@ =~= s@.skip(ke as int + 1));
    let parts = crate::text::split_char(key.as_slice(), '.');
    if after.len() > 0 && after[0] == '{' {
        let be = brace_end(after);
        proof {
            lemma_brace_end_bounds(after@, 1, 1);
        }
        let value = &after[0..be];
        assert(value@ =~= after@.take(be as int));
        let rest = &after[be..after.len()];
        assert(rest@ =~= after@.skip(be as int));
        if value.len() >= 2 && value[value.len() - 1] == '}' {
            let inner = &value[1..value.len() - 1];
            assert(inner@ =~= value@.subrange(1, value@.len() - 1));
            let fresh: Vec<(String, Value)> = Vec::new();
            proof {
                assert(crate::value::view_entries(fresh@) =~= Seq::<
                    (Seq<char>, ValueView),
                >::empty());
            }
            match decode_inline_acc(inner, fresh) {
                Err(e) => Err(e),
                Ok(ins) => {
                    let ghost insv = crate::value::view_entries(ins@);
                    let obj = Value::Object(ins);
                    match crate::paths::set_path(acc, parts.as_slice(), obj) {
                        Err(e) => Err(e),
                        Ok(acc2) => decode_inline_acc(rest, acc2),
                    }
                },
            }
        } else {
            let v: Value = if sep == '=' {
                let u = replace_char(value, '_', ' ');
                Value::Str(chars_to_string(u.as_slice()))
            } else {
                let hint = crate::text::str_to_chars("auto");
                parse_value(value, hint.as_slice())
            };
            match crate::paths::set_path(acc, parts.as_slice(), v) {
                Err(e) => Err(e),
                Ok(acc2) => decode_inline_acc(rest, acc2),
            }
        }
    } else {
        let vl = token_run(after);
        proof {
            crate::text::lemma_token_len(after@);
        }
        let value = &after[0..vl];
        assert(value@ =~= after@.take(vl as int));
        let rest = &after[vl..after.len()];
        assert(rest@ =~= after@.skip(vl as int));
        let v: Value = if sep == '=' {
            let u = replace_char(value, '_', ' ');
            Value::Str(chars_to_string(u.as_slice()))
        } else {
            let hint = crate::text::str_to_chars("auto");
            parse_value(value, hint.as_slice())
        };
        match crate::paths::set_path(acc, parts.as_slice(), v) {
            Err(e) => Err(e),
            Ok(acc2) => decode_inline_acc(rest, acc2),
        }
    }
}

/// Decodes one inline block into a single object.
pub fn decode_inline(s: &[char]) -> (r: Result<Value, ZoonError>)
    ensures
        match r {
            Ok(v) => spec_inline(s@, Seq::empty()) matches Ok(es) && v@ == ValueView::Object(es),
            Err(e) => spec_inline(s@, Seq::empty()) is Err && e is ParseError,
        },
{
    let acc: Vec<(String, Value)> = Vec::new();
    proof {
        assert(crate::value::view_entries(acc@) =~= Seq::<(Seq<char>, ValueView)>::empty());
    }
    match decode_inline_acc(s, acc) {
        Ok(out) => Ok(Value::Object(out)),
        Err(e) => Err(e),
    }
}

/// The model of the whole decoder: empty input decodes to the empty value of
/// the expected shape; a first significant `#` or `%` selects the tabular
/// grammar; anything else is an inline block.
pub open spec fn spec_decode(s: Seq<char>, shape: crate::Shape) -> Result<ValueView, ErrKind> {
    let t = spec_trim(s);
    if t.len() == 0 {
        match shape {
            crate::Shape::ArrayShape => Ok(ValueView::Array(Seq::empty())),
            crate::Shape::ObjectShape => Ok(ValueView::Object(Seq::empty())),
        }
    } else if t[0] == '#' || t[0] == '%' {
        match spec_decode_tabular(t) {
            Ok(rows) => Ok(ValueView::Array(rows)),
            Err(k) => Err(k),
        }
    } else {
        match spec_inline(t, Seq::empty()) {
            Ok(es) => Ok(ValueView::Object(es)),
            Err(_) => Err(ErrKind::Conflict),
        }
    }
}

/// Decodes a document of the format into a value tree, as [`spec_decode`]
/// describes; `shape` decides only what empty input decodes to.
pub fn decode(input: &str, shape: crate::Shape) -> (r: Result<Value, ZoonError>)
    ensures
        match r {
            Ok(v) => spec_decode(input@, shape) matches Ok(m) && v@ == m,
            Err(e) => spec_decode(input@, shape) matches Err(k) && err_matches(e, k),
        },
{
    let chars = crate::text::str_to_chars(input);
    let t = trim(chars.as_slice());
    if t.len() == 0 {
        match shape {
            crate::Shape::ArrayShape => {
                let v: Vec<Value> = Vec::new();
                proof {
                    assert(crate::value::view_items(v@) =~= Seq::<ValueView>::empty());
                }
                Ok(Value::Array(v))
            },
            crate::Shape::ObjectShape => {
                let v: Vec<(String, Value)> = Vec::new();
                proof {
                    assert(crate::value::view_entries(v@) =~= Seq::<(Seq<char>, ValueView)>::empty());
                }
                Ok(Value::Object(v))
            },
        }
    } else if t[0] == '#' || t[0] == '%' {
        decode_tabular(t)
    } else {
        decode_inline(t)
    }
}

} // verus!
