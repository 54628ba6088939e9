use vstd::prelude::*;
use crate::grammar::{
    Expected, binding_at, block_at, char_at, ident_end, is_alnum, is_identifier, is_ws,
    lemma_binding_at, lemma_value_at, more_values_at, skip_ws, value_at, wf_binding, wf_value,
};
use crate::parser::{MAX_DEPTH, binding_parse, value_parse};
use crate::printer::{binding_text, bindings_text, value_text, values_text};
use crate::tree::{BindingModel, ValueModel};

verus! {

/// `t` stands in `s` from position `i` on.
pub open spec fn text_at(s: Seq<char>, i: int, t: Seq<char>) -> bool {
    &&& 0 <= i
    &&& i + t.len() <= s.len()
    &&& forall|k: int| 0 <= k < t.len() ==> s[i + k] == #[trigger] t[k]
}

/// What may follow a printed value without changing how it is read: no letter or
/// digit right after it, and no `{` after the whitespace that follows.
pub open spec fn value_stop(s: Seq<char>, p: int) -> bool {
    &&& !(0 <= p < s.len() && is_alnum(s[p]))
    &&& !char_at(s, skip_ws(s, p), '{')
}

/// What may follow a printed binding without changing how it is read: as for a value,
/// and no `,` after the whitespace that follows.
pub open spec fn binding_stop(s: Seq<char>, p: int) -> bool {
    &&& value_stop(s, p)
    &&& !char_at(s, skip_ws(s, p), ',')
}

proof fn lemma_text_at_concat(s: Seq<char>, i: int, a: Seq<char>, b: Seq<char>)
    requires
        text_at(s, i, a + b),
    ensures
        text_at(s, i, a),
        text_at(s, i + a.len(), b),
{
    assert forall|k: int| 0 <= k < a.len() implies s[i + k] == #[trigger] a[k] by {
        assert((a + b)[k] == a[k]);
    }
    assert forall|k: int| 0 <= k < b.len() implies s[i + a.len() + k] == #[trigger] b[k] by {
        assert((a + b)[a.len() + k] == b[k]);
    }
}

proof fn lemma_ident_exact(s: Seq<char>, i: int, t: Seq<char>)
    requires
        text_at(s, i, t),
        is_identifier(t),
        !(0 <= i + t.len() < s.len() && is_alnum(s[i + t.len()])),
    ensures
        ident_end(s, i) == i + t.len(),
        s.subrange(i, i + t.len()) == t,
    decreases t.len(),
{
    assert(s.subrange(i, i + t.len()) =~= t);
    assert(is_alnum(t[0]));
    if t.len() > 1 {
        let u = t.drop_first();
        assert forall|k: int| 0 <= k < u.len() implies s[i + 1 + k] == #[trigger] u[k] by {
            assert(u[k] == t[k + 1]);
        }
        assert forall|k: int| 0 <= k < u.len() implies is_alnum(#[trigger] u[k]) by {
            assert(u[k] == t[k + 1]);
        }
        lemma_ident_exact(s, i + 1, u);
    } else {
        assert(ident_end(s, i + 1) == i + 1);
    }
}

proof fn lemma_values_text_cons(vs: Seq<ValueModel>)
    requires
        vs.len() >= 2,
    ensures
        values_text(vs) == value_text(vs[0]) + seq![','] + values_text(vs.drop_first()),
    decreases vs.len(),
{
    if vs.len() == 2 {
        assert(vs.drop_last() =~= seq![vs[0]]);
        assert(vs.drop_first() =~= seq![vs[1]]);
        assert(values_text(vs.drop_first()) == value_text(vs[1]));
        assert(values_text(vs.drop_last()) == value_text(vs[0]));
        assert(values_text(vs) =~= value_text(vs[0]) + seq![','] + values_text(vs.drop_first()));
    } else {
        lemma_values_text_cons(vs.drop_last());
        assert(vs.drop_last().drop_first() =~= vs.drop_first().drop_last());
        assert(vs.drop_first().last() == vs.last());
        assert(values_text(vs) =~= value_text(vs[0]) + seq![','] + values_text(vs.drop_first()));
    }
}

proof fn lemma_bindings_text_cons(bs: Seq<BindingModel>)
    requires
        bs.len() >= 2,
    ensures
        bindings_text(bs) == binding_text(bs[0]) + seq![' '] + bindings_text(bs.drop_first()),
    decreases bs.len(),
{
    if bs.len() == 2 {
        assert(bs.drop_last() =~= seq![bs[0]]);
        assert(bs.drop_first() =~= seq![bs[1]]);
        assert(bindings_text(bs.drop_first()) == binding_text(bs[1]));
        assert(bindings_text(bs.drop_last()) == binding_text(bs[0]));
        assert(bindings_text(bs) =~= binding_text(bs[0]) + seq![' '] + bindings_text(
            bs.drop_first(),
        ));
    } else {
        lemma_bindings_text_cons(bs.drop_last());
        assert(bs.drop_last().drop_first() =~= bs.drop_first().drop_last());
        assert(bs.drop_first().last() == bs.last());
        assert(bindings_text(bs) =~= binding_text(bs[0]) + seq![' '] + bindings_text(
            bs.drop_first(),
        ));
    }
}

/// The text that a binding's values after the first add to its printed form.
pub open spec fn more_text(rest: Seq<ValueModel>) -> Seq<char> {
    if rest.len() == 0 {
        Seq::empty()
    } else {
        seq![','] + values_text(rest)
    }
}

proof fn lemma_values_text_split(vs: Seq<ValueModel>)
    requires
        vs.len() >= 1,
    ensures
        values_text(vs) == value_text(vs[0]) + more_text(vs.drop_first()),
{
    if vs.len() == 1 {
        assert(value_text(vs[0]) + more_text(vs.drop_first()) =~= value_text(vs[0]));
    } else {
        lemma_values_text_cons(vs);
        assert(values_text(vs) =~= value_text(vs[0]) + more_text(vs.drop_first()));
    }
}

proof fn lemma_value_text_start(v: ValueModel, d: nat)
    requires
        wf_value(v, d),
    ensures
        value_text(v).len() > 0,
        is_alnum(value_text(v)[0]),
{
    assert(value_text(v)[0] == v.token[0]);
}

proof fn lemma_binding_text_start(b: BindingModel, d: nat)
    requires
        wf_binding(b, d),
    ensures
        binding_text(b).len() > 0,
        is_alnum(binding_text(b)[0]),
{
    assert(binding_text(b)[0] == b.name[0]);
}

proof fn lemma_bindings_text_start(bs: Seq<BindingModel>, d: nat)
    requires
        bs.len() > 0,
        wf_binding(bs[0], d),
    ensures
        bindings_text(bs).len() > 0,
        is_alnum(bindings_text(bs)[0]),
{
    lemma_binding_text_start(bs[0], d);
    if bs.len() >= 2 {
        lemma_bindings_text_cons(bs);
    }
}

/// Whitespace is skipped up to the first character that is not whitespace.
proof fn lemma_skip_to(s: Seq<char>, p: int, q: int)
    requires
        0 <= p <= q,
        forall|k: int| p <= k < q ==> is_ws(#[trigger] s[k]),
        q < s.len() ==> !is_ws(s[q]),
        q <= s.len(),
    ensures
        skip_ws(s, p) == q,
    decreases q - p,
{
    if p < q {
        lemma_skip_to(s, p + 1, q);
    }
}

/// A printed value, followed by text that cannot extend it, reads back as itself.
proof fn lemma_value_round(s: Seq<char>, i: int, v: ValueModel, d: nat)
    requires
        wf_value(v, d),
        text_at(s, i, value_text(v)),
        value_stop(s, i + value_text(v).len()),
    ensures
        value_at(s, i, d) == Ok::<(ValueModel, int), (int, Expected)>((v, i + value_text(v).len())),
    decreases v,
{
    let t = v.token;
    let n = t.len();
    if v.children.len() == 0 {
        lemma_ident_exact(s, i, t);
        assert(v.children =~= Seq::<BindingModel>::empty());
    } else {
        let bs = v.children;
        let bt = bindings_text(bs);
        lemma_text_at_concat(s, i, t + seq!['{'] + bt, seq!['}']);
        lemma_text_at_concat(s, i, t + seq!['{'], bt);
        lemma_text_at_concat(s, i, t, seq!['{']);
        assert(s[i + n] == seq!['{'][0]);
        lemma_ident_exact(s, i, t);
        let e = i + n;
        lemma_skip_to(s, e, e);
        lemma_bindings_text_start(bs, (d - 1) as nat);
        assert(s[e + 1] == bt[0]);
        lemma_skip_to(s, e + 1, e + 1);
        assert(s[e + 1 + bt.len()] == seq!['}'][0]);
        lemma_block_round(s, e + 1, bs, (d - 1) as nat);
    }
}

/// Printed bindings of a block, followed by its `}`, read back as themselves.
proof fn lemma_block_round(s: Seq<char>, k: int, bs: Seq<BindingModel>, d: nat)
    requires
        bs.len() > 0,
        forall|n: int| 0 <= n < bs.len() ==> wf_binding(#[trigger] bs[n], d),
        text_at(s, k, bindings_text(bs)),
        char_at(s, k + bindings_text(bs).len(), '}'),
    ensures
        block_at(s, k, d) == Ok::<(Seq<BindingModel>, int), (int, Expected)>(
            (bs, k + bindings_text(bs).len() + 1),
        ),
    decreases bs,
{
    let b = bs[0];
    let bt = binding_text(b);
    let p = k + bt.len();
    lemma_bindings_text_start(bs, d);
    assert(s[k] == bindings_text(bs)[0]);
    lemma_binding_text_start(b, d);
    if bs.len() == 1 {
        assert(bindings_text(bs) == bt);
        lemma_skip_to(s, p, p);
        lemma_binding_round(s, k, b, d);
        assert(seq![b] =~= bs);
    } else {
        let rest = bs.drop_first();
        let rt = bindings_text(rest);
        lemma_bindings_text_cons(bs);
        lemma_text_at_concat(s, k, bt + seq![' '], rt);
        lemma_text_at_concat(s, k, bt, seq![' ']);
        assert(s[p] == seq![' '][0]);
        assert(rest[0] == bs[1]);
        lemma_bindings_text_start(rest, d);
        assert(s[p + 1] == rt[0]);
        lemma_skip_to(s, p, p + 1);
        lemma_binding_round(s, k, b, d);
        assert forall|n: int| 0 <= n < rest.len() implies wf_binding(#[trigger] rest[n], d) by {
            assert(rest[n] == bs[n + 1]);
        }
        lemma_block_round(s, p + 1, rest, d);
        assert(seq![b] + rest =~= bs);
    }
}

/// A printed binding, followed by text that cannot extend it, reads back as itself.
proof fn lemma_binding_round(s: Seq<char>, i: int, b: BindingModel, d: nat)
    requires
        wf_binding(b, d),
        text_at(s, i, binding_text(b)),
        binding_stop(s, i + binding_text(b).len()),
    ensures
        binding_at(s, i, d) == Ok::<(BindingModel, int), (int, Expected)>(
            (b, i + binding_text(b).len()),
        ),
    decreases b,
{
    let name = b.name;
    let n = name.len();
    let vs = b.values;
    let v0 = vs[0];
    let rest = vs.drop_first();
    lemma_text_at_concat(s, i, name + seq!['='], values_text(vs));
    lemma_text_at_concat(s, i, name, seq!['=']);
    assert(s[i + n] == seq!['='][0]);
    lemma_ident_exact(s, i, name);
    let e = i + n;
    lemma_values_text_split(vs);
    lemma_text_at_concat(s, e + 1, value_text(v0), more_text(rest));
    let q = e + 1 + value_text(v0).len();
    if rest.len() > 0 {
        assert(s[q] == more_text(rest)[0]);
        lemma_skip_to(s, q, q);
    }
    assert(wf_value(v0, d));
    lemma_value_round(s, e + 1, v0, d);
    assert forall|k: int| 0 <= k < rest.len() implies wf_value(#[trigger] rest[k], d) by {
        assert(rest[k] == vs[k + 1]);
    }
    lemma_value_text_start(v0, d);
    lemma_more_round(s, q, rest, d);
    assert(seq![v0] + rest =~= vs);
}

/// A binding's printed later values, followed by text that cannot extend them, read
/// back as themselves.
proof fn lemma_more_round(s: Seq<char>, m: int, rest: Seq<ValueModel>, d: nat)
    requires
        forall|k: int| 0 <= k < rest.len() ==> wf_value(#[trigger] rest[k], d),
        text_at(s, m, more_text(rest)),
        binding_stop(s, m + more_text(rest).len()),
    ensures
        more_values_at(s, m, d) == Ok::<(Seq<ValueModel>, int), (int, Expected)>(
            (rest, m + more_text(rest).len()),
        ),
    decreases rest,
{
    if rest.len() == 0 {
        assert(rest =~= Seq::<ValueModel>::empty());
    } else {
        let v0 = rest[0];
        let tail = rest.drop_first();
        lemma_values_text_split(rest);
        lemma_text_at_concat(s, m, seq![','], values_text(rest));
        assert(s[m] == seq![','][0]);
        lemma_skip_to(s, m, m);
        lemma_text_at_concat(s, m + 1, value_text(v0), more_text(tail));
        lemma_value_text_start(v0, d);
        assert(s[m + 1] == value_text(v0)[0]);
        lemma_skip_to(s, m + 1, m + 1);
        let q = m + 1 + value_text(v0).len();
        if tail.len() > 0 {
            assert(s[q] == more_text(tail)[0]);
            lemma_skip_to(s, q, q);
        }
        lemma_value_round(s, m + 1, v0, d);
        assert forall|k: int| 0 <= k < tail.len() implies wf_value(#[trigger] tail[k], d) by {
            assert(tail[k] == rest[k + 1]);
        }
        lemma_more_round(s, q, tail, d);
        assert(seq![v0] + tail =~= rest);
    }
}

/// Printing a well-formed binding whose blocks nest no deeper than the limit, and
/// reading the text back, gives the same binding, with the whole text consumed.
pub proof fn lemma_print_then_parse_binding(b: BindingModel)
    requires
        wf_binding(b, MAX_DEPTH as nat),
    ensures
        binding_parse(binding_text(b)) == Ok::<(BindingModel, int), (int, Expected)>(
            (b, binding_text(b).len() as int),
        ),
{
    let s = binding_text(b);
    lemma_skip_to(s, s.len() as int, s.len() as int);
    lemma_binding_round(s, 0, b, MAX_DEPTH as nat);
}

/// Printing a well-formed value whose blocks nest no deeper than the limit, and
/// reading the text back, gives the same value, with the whole text consumed.
pub proof fn lemma_print_then_parse_value(v: ValueModel)
    requires
        wf_value(v, MAX_DEPTH as nat),
    ensures
        value_parse(value_text(v)) == Ok::<(ValueModel, int), (int, Expected)>(
            (v, value_text(v).len() as int),
        ),
{
    let s = value_text(v);
    lemma_skip_to(s, s.len() as int, s.len() as int);
    lemma_value_round(s, 0, v, MAX_DEPTH as nat);
}

/// Whatever binding is read from some text prints to a text that reads back as that
/// same binding, with nothing left over.
pub proof fn lemma_parsed_binding_round_trip(input: Seq<char>)
    requires
        binding_parse(input) is Ok,
    ensures
        binding_parse(binding_text(binding_parse(input)->Ok_0.0)) == Ok::<
            (BindingModel, int),
            (int, Expected),
        >((binding_parse(input)->Ok_0.0, binding_text(binding_parse(input)->Ok_0.0).len() as int)),
{
    lemma_binding_at(input, 0, MAX_DEPTH as nat);
    lemma_print_then_parse_binding(binding_parse(input)->Ok_0.0);
}

/// Whatever value is read from some text prints to a text that reads back as that same
/// value, with nothing left over.
pub proof fn lemma_parsed_value_round_trip(input: Seq<char>)
    requires
        value_parse(input) is Ok,
    ensures
        value_parse(value_text(value_parse(input)->Ok_0.0)) == Ok::<
            (ValueModel, int),
            (int, Expected),
        >((value_parse(input)->Ok_0.0, value_text(value_parse(input)->Ok_0.0).len() as int)),
{
    lemma_value_at(input, 0, MAX_DEPTH as nat);
    lemma_print_then_parse_value(value_parse(input)->Ok_0.0);
}

/// The canonical text is a fixed point: reading it and printing again gives it back.
pub proof fn lemma_canonical_text_is_stable(b: BindingModel)
    requires
        wf_binding(b, MAX_DEPTH as nat),
    ensures
        binding_parse(binding_text(b)) is Ok,
        binding_text(binding_parse(binding_text(b))->Ok_0.0) == binding_text(b),
{
    lemma_print_then_parse_binding(b);
}

} // verus!
